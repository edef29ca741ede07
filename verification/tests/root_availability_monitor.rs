use quickfox_core::index_journal::IndexFallbackReason;
use quickfox_core::root_availability_monitor::{dispatch_outcome, joined_outcome, monitor_step, MonitorExit, MonitorStep};

#[test]
fn cancelled_monitor_stops_before_probing() {
    assert_eq!(monitor_step(true, None), MonitorStep::Exit(MonitorExit::Cancelled));
    assert_eq!(monitor_step(true, Some(Ok(true))), MonitorStep::Exit(MonitorExit::Cancelled));
}

#[test]
fn probe_results_decide_the_next_step() {
    assert_eq!(monitor_step(false, Some(Ok(true))), MonitorStep::DispatchReady);
    assert_eq!(monitor_step(false, Some(Ok(false))), MonitorStep::Wait);
    assert_eq!(
        monitor_step(false, Some(Err("gone".to_owned()))),
        MonitorStep::Exit(MonitorExit::ProbeFailed("gone".to_owned()))
    );
}

#[test]
fn dispatch_and_join_outcomes() {
    assert_eq!(dispatch_outcome(Ok(())), MonitorExit::Ready);
    assert_eq!(dispatch_outcome(Err("x".to_owned())), MonitorExit::DispatchFailed("x".to_owned()));
    assert_eq!(joined_outcome(Some(None), None), MonitorExit::ThreadPanicked);
    assert_eq!(joined_outcome(Some(Some(MonitorExit::Ready)), None), MonitorExit::Ready);
    assert_eq!(joined_outcome(None, Some(MonitorExit::Ready)), MonitorExit::Ready);
    assert_eq!(joined_outcome(None, None), MonitorExit::Cancelled);
    assert_ne!(IndexFallbackReason::JournalRecoveryFailed, IndexFallbackReason::FullRefreshFallback);
}
