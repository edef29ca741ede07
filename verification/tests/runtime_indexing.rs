use quickfox_core::runtime_indexing::{
    after_commit, batch_needs_scan, commit_plan, AfterCommit, BatchScanOutcome, CommitDecision, IncrementalPhase,
};
use quickfox_core::config::IndexConfigChange;
use quickfox_core::index_entry::IndexDegradationCode;
use quickfox_core::runtime_indexing::{
    baseline_refresh_event_for_delta_state, delta_safety_limit_reached, handoff_outcome,
    refresh_decision, watcher_rescan_requires_calibration, BaselineRefreshReason,
    RefreshDecision, RuntimeIndexingEvent, RuntimeIndexingHandoffOutcome,
    TrustedIncrementalState, MAX_DELTA_BYTES, MAX_DELTA_ENTRIES,
};

#[test]
fn manual_refresh_uses_manifest_calibration_when_state_is_trusted() {
    assert_eq!(
        refresh_decision(TrustedIncrementalState::ready(), IndexConfigChange::Unchanged),
        RefreshDecision::FlushPendingThenCalibrateAllRoots
    );
}

#[test]
fn missing_dirty_or_semantic_state_uses_full_refresh_with_reason() {
    assert_eq!(
        refresh_decision(TrustedIncrementalState::missing_manifest(), IndexConfigChange::Unchanged),
        RefreshDecision::FullRefresh(BaselineRefreshReason::ManifestUnavailable)
    );
    assert_eq!(
        refresh_decision(
            TrustedIncrementalState {
                manifest_ready: true,
                dirty_roots: 1,
            },
            IndexConfigChange::Unchanged
        ),
        RefreshDecision::FullRefresh(BaselineRefreshReason::DirtyRoots)
    );
    assert_eq!(
        refresh_decision(TrustedIncrementalState::ready(), IndexConfigChange::IndexSemantics),
        RefreshDecision::FullRefresh(BaselineRefreshReason::IndexConfigChanged)
    );
}

#[test]
fn watcher_rescan_is_calibrated_without_requesting_baseline_recovery() {
    assert!(watcher_rescan_requires_calibration(
        false,
        Some(IndexDegradationCode::WatcherOverflow),
    ));
    assert!(!watcher_rescan_requires_calibration(
        true,
        Some(IndexDegradationCode::WatcherOverflow),
    ));
    assert!(!watcher_rescan_requires_calibration(
        false,
        Some(IndexDegradationCode::ChannelOverflow),
    ));
}

#[test]
fn delta_safety_limit_uses_inclusive_entry_and_memory_thresholds() {
    assert!(!delta_safety_limit_reached(MAX_DELTA_ENTRIES - 1, MAX_DELTA_BYTES - 1));
    assert!(delta_safety_limit_reached(MAX_DELTA_ENTRIES, 0));
    assert!(delta_safety_limit_reached(0, MAX_DELTA_BYTES));
    assert!(matches!(
        baseline_refresh_event_for_delta_state(MAX_DELTA_ENTRIES, 0),
        Some(RuntimeIndexingEvent::BaselineRefreshRequired {
            reason: BaselineRefreshReason::DeltaSafetyLimit
        })
    ));
}

#[test]
fn small_delta_requests_no_refresh_and_limits_have_their_sizes() {
    assert_eq!(MAX_DELTA_ENTRIES, 50_000);
    assert_eq!(MAX_DELTA_BYTES, 64 * 1024 * 1024);
    assert!(baseline_refresh_event_for_delta_state(1, 1).is_none());
    assert!(!watcher_rescan_requires_calibration(false, None));
}

#[test]
fn dirty_roots_outrank_nothing_but_a_semantic_change() {
    assert_eq!(
        refresh_decision(
            TrustedIncrementalState { manifest_ready: false, dirty_roots: 3 },
            IndexConfigChange::Unchanged
        ),
        RefreshDecision::FullRefresh(BaselineRefreshReason::ManifestUnavailable)
    );
}

#[test]
fn handoff_requires_recovery_on_any_failure() {
    assert_eq!(handoff_outcome(true, true, false), RuntimeIndexingHandoffOutcome::Clean);
    assert_eq!(handoff_outcome(false, true, false), RuntimeIndexingHandoffOutcome::RecoveryRequired);
    assert_eq!(handoff_outcome(true, false, false), RuntimeIndexingHandoffOutcome::RecoveryRequired);
    assert_eq!(handoff_outcome(true, true, true), RuntimeIndexingHandoffOutcome::RecoveryRequired);
}

fn strings(items: &[&str]) -> Vec<String> {
    items.iter().map(|item| (*item).to_owned()).collect()
}

#[test]
fn a_cancelled_batch_scan_changes_nothing() {
    let plan = commit_plan(&strings(&["/a"]), &strings(&["/b"]), &strings(&["/a", "/b"]), &BatchScanOutcome::Cancelled);
    assert_eq!(plan.decision, CommitDecision::Abandon);
    assert!(plan.degraded_roots.contains("/a"));
    assert_eq!(plan.degraded_roots.len(), 1);
}

#[test]
fn a_failed_batch_scan_degrades_every_root_and_requests_a_refresh() {
    let plan = commit_plan(&Vec::new(), &strings(&["/b"]), &strings(&["/a", "/b", "/c"]), &BatchScanOutcome::IoFailed);
    assert_eq!(plan.decision, CommitDecision::CalibrationFailure { dirty_roots: 3, request_refresh: true });
    assert_eq!(plan.degraded_roots.len(), 3);
}

#[test]
fn attempted_roots_that_did_not_fail_recover_before_commit() {
    let outcome = BatchScanOutcome::Scanned { failed_roots: strings(&["/c"]), durable_changes: true };
    let plan = commit_plan(&strings(&["/a", "/b"]), &strings(&["/a"]), &strings(&["/a", "/b", "/c"]), &outcome);
    assert_eq!(plan.decision, CommitDecision::Commit { failed_roots: 1 });
    assert!(!plan.degraded_roots.contains("/a"));
    assert!(plan.degraded_roots.contains("/b"));
    assert!(plan.degraded_roots.contains("/c"));
    assert_eq!(plan.dirty_roots.len(), 3);
}

#[test]
fn a_scan_without_changes_publishes_the_remaining_degradation() {
    let clean = BatchScanOutcome::Scanned { failed_roots: Vec::new(), durable_changes: false };
    let recovered = commit_plan(&strings(&["/a"]), &strings(&["/a"]), &strings(&["/a"]), &clean);
    assert_eq!(
        recovered.decision,
        CommitDecision::Publish { phase: IncrementalPhase::Watching, degradation: None, dirty_roots: 0 }
    );
    let still = commit_plan(&strings(&["/a", "/b"]), &strings(&["/a"]), &strings(&["/a", "/b"]), &clean);
    assert_eq!(
        still.decision,
        CommitDecision::Publish {
            phase: IncrementalPhase::Degraded,
            degradation: Some(IndexDegradationCode::CalibrationFailed),
            dirty_roots: 1,
        }
    );
    let failing = BatchScanOutcome::Scanned { failed_roots: strings(&["/b"]), durable_changes: false };
    let failed = commit_plan(&Vec::new(), &strings(&["/a"]), &strings(&["/a", "/b"]), &failing);
    assert_eq!(failed.decision, CommitDecision::CalibrationFailure { dirty_roots: 2, request_refresh: false });
}

#[test]
fn journal_results_decide_the_status_after_a_commit() {
    assert!(!batch_needs_scan(0, 0, 0));
    assert!(batch_needs_scan(0, 1, 0));
    assert!(batch_needs_scan(0, 0, 2));
    assert_eq!(after_commit(false, 0, 1), AfterCommit::WriteFailed { report_calibration_failure: true });
    assert_eq!(
        after_commit(true, 0, 0),
        AfterCommit::Committed {
            phase: IncrementalPhase::Watching,
            clear_degradation: true,
            dirty_roots: 0,
            report_calibration_failure: false,
        }
    );
    assert_eq!(
        after_commit(true, 2, 1),
        AfterCommit::Committed {
            phase: IncrementalPhase::Degraded,
            clear_degradation: false,
            dirty_roots: 2,
            report_calibration_failure: true,
        }
    );
}
