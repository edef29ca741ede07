use quickfox_core::index_update_coordinator::{
    CoordinatorPolicy, CoordinatorShutdown, CoordinatorState,
};
use quickfox_core::index_watcher::IndexWatchEvent;

const START: u64 = 1_000_000;

#[test]
fn production_policy_uses_five_second_quiet_window_and_ten_second_max_latency() {
    let policy = CoordinatorPolicy::production();

    assert_eq!(policy.quiet_window(), 5_000);
    assert_eq!(policy.max_latency(), 10_000);
}

#[test]
fn coordinator_policy_accepts_injected_test_deadlines() {
    let start = START;
    let policy = CoordinatorPolicy::new(10, 20);
    let mut state = CoordinatorState::new(policy);
    state.push_event(IndexWatchEvent::Write("a.txt".to_owned()), start);

    assert!(!state.should_drain(start + 9));
    assert!(state.should_drain(start + 10));
}

#[test]
fn coordinator_drains_after_five_seconds_without_a_new_event() {
    let start = START;
    let mut state = CoordinatorState::new(CoordinatorPolicy::production());
    state.push_event(IndexWatchEvent::Write("b.txt".to_owned()), start);

    assert!(!state.should_drain(start + 4_999));
    assert!(state.should_drain(start + 5_000));
}

#[test]
fn coordinator_enforces_ten_second_max_latency_during_continuous_events() {
    let start = START;
    let mut state = CoordinatorState::new(CoordinatorPolicy::production());
    state.push_event(IndexWatchEvent::Write("a.txt".to_owned()), start);
    state.push_event(IndexWatchEvent::Write("b.txt".to_owned()), start + 4_000);
    state.push_event(IndexWatchEvent::Write("c.txt".to_owned()), start + 8_000);

    assert!(!state.should_drain(start + 9_999));
    assert!(state.should_drain(start + 10_000));
}

#[test]
fn coordinator_collapses_rename_write_and_dirty_roots_deterministically() {
    let start = START;
    let mut state = CoordinatorState::new(CoordinatorPolicy::production());
    let old_path = "/workspace/old.txt".to_owned();
    let new_path = "/workspace/new.txt".to_owned();

    state.push_event(
        IndexWatchEvent::Rename {
            from: old_path.clone(),
            to: new_path.clone(),
        },
        start,
    );
    state.push_event(IndexWatchEvent::Write(new_path.clone()), start);
    state.mark_dirty_root("/workspace/z-root".to_owned(), start);
    state.mark_dirty_root("/workspace/a-root".to_owned(), start);
    state.mark_dirty_root("/workspace/z-root".to_owned(), start);

    let batch = state.drain();

    assert_eq!(batch.changed_paths, vec![new_path]);
    assert_eq!(batch.removed_paths, vec![old_path]);
    assert_eq!(
        batch.dirty_roots,
        vec!["/workspace/a-root".to_owned(), "/workspace/z-root".to_owned()]
    );
    assert!(state.is_empty());
    assert!(!state.should_drain(start + 60_000));
}

#[test]
fn coordinator_shutdown_is_observable_within_bounded_poll_interval() {
    let start = START;
    let mut state = CoordinatorState::new(CoordinatorPolicy::production());
    state.push_event(IndexWatchEvent::Write("a.txt".to_owned()), start);
    let shutdown = CoordinatorShutdown::default();
    let worker_shutdown = shutdown.clone();

    assert!(state.next_wait(start) <= 250);
    shutdown.request();
    assert!(worker_shutdown.is_requested());
}

#[test]
fn next_wait_counts_down_to_the_deadline() {
    let mut state = CoordinatorState::new(CoordinatorPolicy::new(30, 100));
    assert_eq!(state.next_wait(START), 50);
    state.push_event(IndexWatchEvent::Write("a.txt".to_owned()), START);
    assert_eq!(state.next_wait(START), 30);
    assert_eq!(state.next_wait(START + 20), 10);
    assert_eq!(state.next_wait(START + 40), 0);
}

#[test]
fn counts_track_pending_events_and_dirty_roots() {
    let mut state = CoordinatorState::new(CoordinatorPolicy::production());
    assert!(state.is_empty());
    state.push_event(IndexWatchEvent::Remove("/r/x".to_owned()), START);
    state.push_event(IndexWatchEvent::Create("/r/y".to_owned()), START + 1);
    state.mark_dirty_root("/r".to_owned(), START + 2);
    assert_eq!(state.pending_event_count(), 2);
    assert_eq!(state.dirty_root_count(), 1);
    assert!(!state.is_empty());
}

#[test]
fn earlier_observation_moves_the_latency_deadline_back() {
    let mut state = CoordinatorState::new(CoordinatorPolicy::new(1_000, 2_000));
    state.push_event(IndexWatchEvent::Write("a".to_owned()), START + 500);
    state.mark_dirty_root("/r".to_owned(), START);
    assert!(!state.should_drain(START + 1_499));
    assert!(state.should_drain(START + 1_500));
}

#[test]
fn drain_reports_what_the_last_event_said_of_each_path() {
    let mut state = CoordinatorState::new(CoordinatorPolicy::production());
    state.push_event(IndexWatchEvent::Create("/w/a".to_owned()), START);
    state.push_event(IndexWatchEvent::Remove("/w/a".to_owned()), START + 1);
    state.push_event(IndexWatchEvent::Write("/w/b".to_owned()), START + 2);
    state.push_event(IndexWatchEvent::Rename { from: "/w/b".to_owned(), to: "/w/c".to_owned() }, START + 3);
    state.mark_dirty_root("/w".to_owned(), START + 4);
    state.mark_dirty_root("/w".to_owned(), START + 5);

    let batch = state.drain();

    assert_eq!(batch.changed_paths, vec!["/w/c".to_owned()]);
    assert_eq!(batch.removed_paths, vec!["/w/a".to_owned(), "/w/b".to_owned()]);
    assert_eq!(batch.dirty_roots, vec!["/w".to_owned()]);
    assert!(state.is_empty());
    let again = state.drain();
    assert!(again.changed_paths.is_empty() && again.removed_paths.is_empty() && again.dirty_roots.is_empty());
}
