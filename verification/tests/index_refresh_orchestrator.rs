use quickfox_core::index_refresh_orchestrator::{
    authoritative_install_generation, compatible_tail_start_generation, refresh_request_decision,
    startup_readiness, CalibrationPhase, CalibrationTransitionError, RefreshRequestDecision,
    RefreshRequestReason, RevisionCaptureFence, RevisionRecoveryLatch, RuntimeCalibrationSession,
    RuntimeFailureApplication, RuntimeFailureKind, StartupReadiness,
};

#[test]
fn revision_fence_selects_tail_after_old_service_join() {
    let fence = RevisionCaptureFence::after_old_service_join(7);
    assert_eq!(compatible_tail_start_generation(3, Some(fence)), 7);
    assert_eq!(compatible_tail_start_generation(9, Some(fence)), 9);
}

#[test]
fn delta_safety_during_refresh_is_absorbed_without_pending_rerun() {
    assert_eq!(
        refresh_request_decision(true, RefreshRequestReason::DeltaSafetyLimit),
        RefreshRequestDecision::AbsorbedByActiveRefresh
    );
    assert_eq!(
        refresh_request_decision(true, RefreshRequestReason::DirtyRoots),
        RefreshRequestDecision::QueueRerun
    );
}

#[test]
fn baseline_install_uses_authoritative_tail_generation() {
    assert_eq!(authoritative_install_generation(3, &[4, 5, 8]), 8);
    assert_eq!(authoritative_install_generation(3, &[]), 3);
}

#[test]
fn missing_required_root_keeps_startup_degraded() {
    assert_eq!(
        startup_readiness(&[true, false], true),
        StartupReadiness::NeedsCalibration
    );
    assert_eq!(startup_readiness(&[true, true], true), StartupReadiness::Ready);
}

#[test]
fn calibration_session_requires_capture_calibration_and_fence_before_watching() {
    let mut session = RuntimeCalibrationSession::new(4, 11);
    assert_eq!(session.phase(), CalibrationPhase::Preparing);
    assert_eq!(
        session.mark_watching(),
        Err(CalibrationTransitionError::CaptureNotRegistered)
    );

    session.mark_capture_registered().unwrap();
    assert_eq!(session.phase(), CalibrationPhase::Capturing);
    assert_eq!(
        session.mark_watching(),
        Err(CalibrationTransitionError::CalibrationIncomplete)
    );

    session.mark_calibration_complete(13).unwrap();
    assert_eq!(session.phase(), CalibrationPhase::Calibrated);
    assert_eq!(
        session.mark_watching(),
        Err(CalibrationTransitionError::FenceIncomplete)
    );

    session.mark_fenced(15).unwrap();
    session.mark_watching().unwrap();
    assert_eq!(session.phase(), CalibrationPhase::Watching);
    assert_eq!(session.authoritative_generation(), Some(15));
}

#[test]
fn calibration_session_failure_is_terminal_and_preserves_revision() {
    let mut session = RuntimeCalibrationSession::new(9, 21);
    let application = session.fail(RuntimeFailureKind::Storage);

    assert_eq!(session.phase(), CalibrationPhase::Degraded);
    assert_eq!(session.revision(), 9);
    assert_eq!(
        application,
        RuntimeFailureApplication::degraded(9, RuntimeFailureKind::Storage)
    );
    assert_eq!(
        session.mark_capture_registered(),
        Err(CalibrationTransitionError::Terminal)
    );
}

#[test]
fn revision_recovery_latch_allows_at_most_one_claim_until_cleared() {
    let mut latch = RevisionRecoveryLatch::default();
    assert!(latch.claim(7));
    assert!(!latch.claim(7));
    assert!(latch.claim(8));
    assert_eq!(latch.claimed_revision(), Some(8));
    assert!(!latch.clear(7));
    assert!(latch.clear(8));
    assert_eq!(latch.claimed_revision(), None);
    assert!(latch.claim(8));
}

#[test]
fn compatible_tail_without_fence_starts_at_scan() {
    assert_eq!(compatible_tail_start_generation(5, None), 5);
}

#[test]
fn refresh_request_without_active_refresh_starts() {
    assert_eq!(
        refresh_request_decision(false, RefreshRequestReason::DirtyRoots),
        RefreshRequestDecision::Start
    );
    assert_eq!(
        refresh_request_decision(false, RefreshRequestReason::DeltaSafetyLimit),
        RefreshRequestDecision::Start
    );
}

#[test]
fn install_generation_ignores_older_tail_entries() {
    assert_eq!(authoritative_install_generation(10, &[4, 12, 7]), 12);
    assert_eq!(authoritative_install_generation(10, &[4, 5]), 10);
}

#[test]
fn startup_without_manifest_coverage_needs_calibration() {
    assert_eq!(startup_readiness(&[true], false), StartupReadiness::NeedsCalibration);
    assert_eq!(startup_readiness(&[], true), StartupReadiness::Ready);
}

#[test]
fn calibration_rejects_generations_that_go_backwards() {
    let mut session = RuntimeCalibrationSession::new(1, 10);
    session.mark_capture_registered().unwrap();
    assert_eq!(
        session.mark_calibration_complete(9),
        Err(CalibrationTransitionError::InvalidGeneration)
    );
    session.mark_calibration_complete(10).unwrap();
    assert_eq!(
        session.mark_fenced(9),
        Err(CalibrationTransitionError::InvalidGeneration)
    );
}

#[test]
fn degraded_failure_keeps_live_view_and_schedules_recovery() {
    let application = RuntimeFailureApplication::degraded(3, RuntimeFailureKind::Watcher);
    assert_eq!(application.revision, 3);
    assert!(application.preserve_live_view);
    assert!(application.schedule_recovery);
}
