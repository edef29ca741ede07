use quickfox_core::index_entry::{IndexDegradationCode, IndexedEntry, IndexedEntryKind};
use quickfox_core::index_watcher::{
    event_paths, events_from_notify, longest_matching_root, needs_rescan_fallback,
    roots_from_entries, IndexEventBatcher, IndexWatchEvent, NotifyEventKind, NotifyRenameMode,
    WatchInboxState, WatchSendOutcome, WatcherFailure,
};

fn join(root: &str, name: &str) -> String {
    format!("{root}/{name}")
}

fn old_path(root: &str, name: &str) -> String {
    join(root, name)
}

#[test]
fn debounce_queue_merges_write_create_remove_and_rename_into_one_batch() {
    let root = "/tmp/quickfox-watch";
    let changed = join(root, "notes.md");
    let removed = join(root, "old.md");
    let renamed_from = join(root, "draft.md");
    let renamed_to = join(root, "final.md");
    let mut queue = IndexEventBatcher::default();

    queue.push(IndexWatchEvent::Write(changed.clone()));
    queue.push(IndexWatchEvent::Create(changed.clone()));
    queue.push(IndexWatchEvent::Remove(removed.clone()));
    queue.push(IndexWatchEvent::Rename {
        from: renamed_from.clone(),
        to: renamed_to.clone(),
    });

    let batch = queue.drain_batch();

    assert_eq!(batch.changed_paths, vec![renamed_to, changed]);
    assert_eq!(batch.removed_paths, vec![renamed_from, old_path(root, "old.md")]);
}

#[test]
fn watcher_failure_status_requests_background_refresh_fallback() {
    let root = "/tmp/quickfox-watch".to_owned();
    let failure = WatcherFailure::new(root.clone(), "too many open files".to_owned());

    assert!(failure.requires_background_refresh);
    assert!(failure.message.contains("watcher failed"));
    assert!(failure.diagnostic.contains("too many open files"));
    assert!(!failure.message.contains(root.as_str()));
}

#[test]
fn runtime_notify_error_keeps_private_path_out_of_message_and_dirties_matching_root() {
    let private_root = "/Users/private/QuickFox".to_owned();
    let private_path = join(&private_root, "secret.txt");
    let unrelated_root = "/Volumes/other".to_owned();
    let roots = vec![unrelated_root, private_root.clone()];
    let mut inbox = WatchInboxState::default();

    inbox.record_notify_error(
        &[private_path.clone()],
        &roots,
        format!("permission denied about [\"{private_path}\"]"),
    );

    let failure = inbox.take_failure().expect("runtime failure retained");
    assert!(!failure.message.contains(private_path.as_str()));
    assert!(failure.diagnostic.contains("secret.txt"));
    assert_eq!(inbox.take_dirty_roots(), vec![private_root]);
    assert_eq!(
        inbox.take_degradation_code(),
        Some(IndexDegradationCode::WatcherRuntimeFailed)
    );
}

#[test]
fn watcher_inbox_retains_receiver_and_marks_overflow_without_blocking() {
    let root = "/tmp/quickfox-watch".to_owned();
    let nested_root = join(&root, "workspace");
    let second_path = join(&nested_root, "second.txt");
    let roots = vec![root, nested_root.clone()];
    let mut inbox = WatchInboxState::default();

    assert_eq!(
        inbox.record_channel_overflow(&IndexWatchEvent::Write(second_path), &roots),
        WatchSendOutcome::Overflowed
    );
    assert_eq!(inbox.take_dirty_roots(), vec![nested_root.clone()]);

    inbox.record_failure(
        WatcherFailure::new(nested_root.clone(), "backend unavailable".to_owned()),
        &roots,
    );
    let failure = inbox.take_failure().expect("failure should be retained");
    assert_eq!(failure.root, nested_root);
    assert!(inbox.take_failure().is_none());
}

#[test]
fn platform_rescan_marks_all_watched_roots_dirty() {
    let first_root = "/tmp/quickfox-first".to_owned();
    let second_root = "/tmp/quickfox-second".to_owned();
    let roots = vec![first_root.clone(), second_root.clone()];
    let mut inbox = WatchInboxState::default();

    assert!(needs_rescan_fallback(NotifyEventKind::Other, 0, true));
    inbox.record_rescan(&[], &roots);

    assert_eq!(inbox.take_dirty_roots(), vec![first_root, second_root]);
    assert_eq!(
        inbox.take_degradation_code(),
        Some(IndexDegradationCode::WatcherOverflow)
    );
}

#[test]
fn rename_mode_from_becomes_remove() {
    let path = "/tmp/quickfox-watch/old.txt".to_owned();
    assert_eq!(
        events_from_notify(NotifyEventKind::Rename(NotifyRenameMode::From), vec![path.clone()]),
        vec![IndexWatchEvent::Remove(path)]
    );
}

#[test]
fn rename_mode_to_becomes_create() {
    let path = "/tmp/quickfox-watch/new.txt".to_owned();
    assert_eq!(
        events_from_notify(NotifyEventKind::Rename(NotifyRenameMode::To), vec![path.clone()]),
        vec![IndexWatchEvent::Create(path)]
    );
}

#[test]
fn rename_mode_any_marks_the_matching_root_dirty_without_queuing_a_write() {
    let root = "/tmp/quickfox-watch".to_owned();
    let path = join(&root, "uncertain.txt");
    let mut inbox = WatchInboxState::default();

    assert!(needs_rescan_fallback(
        NotifyEventKind::Rename(NotifyRenameMode::Any),
        1,
        false
    ));
    assert!(events_from_notify(NotifyEventKind::Rename(NotifyRenameMode::Any), vec![path.clone()]).is_empty());
    inbox.record_rescan(&[path], &[root.clone()]);

    assert_eq!(inbox.take_dirty_roots(), vec![root]);
}

#[test]
fn overflowing_unwatched_path_does_not_dirty_unrelated_roots() {
    let roots = vec!["/tmp/quickfox-watch".to_owned()];
    let mut inbox = WatchInboxState::default();

    assert_eq!(
        inbox.record_channel_overflow(&IndexWatchEvent::Write("/other/file.txt".to_owned()), &roots),
        WatchSendOutcome::Overflowed
    );
    assert!(inbox.take_dirty_roots().is_empty());
}

#[test]
fn batcher_orders_paths_by_component_and_keeps_first_spelling() {
    let mut queue = IndexEventBatcher::default();
    queue.push(IndexWatchEvent::Write("/a-b".to_owned()));
    queue.push(IndexWatchEvent::Write("/a/b/".to_owned()));
    queue.push(IndexWatchEvent::Write("/a//b".to_owned()));
    assert_eq!(queue.len(), 2);
    let batch = queue.drain_batch();
    assert_eq!(batch.changed_paths, vec!["/a/b/".to_owned(), "/a-b".to_owned()]);
    assert!(batch.removed_paths.is_empty());
    assert!(queue.is_empty());
}

#[test]
fn remove_after_write_moves_path_to_removed() {
    let mut queue = IndexEventBatcher::default();
    queue.push(IndexWatchEvent::Write("/x/y".to_owned()));
    queue.push(IndexWatchEvent::Remove("/x/y".to_owned()));
    let batch = queue.drain_batch();
    assert!(batch.changed_paths.is_empty());
    assert_eq!(batch.removed_paths, vec!["/x/y".to_owned()]);
}

#[test]
fn deepest_matching_root_respects_component_boundaries() {
    let roots = vec!["/data".to_owned(), "/data/app".to_owned(), "/data/apple".to_owned()];
    assert_eq!(longest_matching_root("/data/apple/x", &roots), Some(2));
    assert_eq!(longest_matching_root("/data/app/x", &roots), Some(1));
    assert_eq!(longest_matching_root("/data/ap", &roots), Some(0));
    assert_eq!(longest_matching_root("/other", &roots), None);
}

#[test]
fn event_paths_skip_empty_paths() {
    assert_eq!(
        event_paths(&IndexWatchEvent::Rename { from: String::new(), to: "/t".to_owned() }),
        vec!["/t".to_owned()]
    );
}

#[test]
fn rename_of_both_paths_becomes_one_rename() {
    assert_eq!(
        events_from_notify(
            NotifyEventKind::Rename(NotifyRenameMode::Both),
            vec!["/a".to_owned(), "/b".to_owned()]
        ),
        vec![IndexWatchEvent::Rename { from: "/a".to_owned(), to: "/b".to_owned() }]
    );
    assert!(needs_rescan_fallback(NotifyEventKind::Rename(NotifyRenameMode::Both), 1, false));
    assert!(!needs_rescan_fallback(NotifyEventKind::Modify, 1, false));
    assert_eq!(
        events_from_notify(NotifyEventKind::Modify, vec!["/a".to_owned()]),
        vec![IndexWatchEvent::Write("/a".to_owned())]
    );
}

#[test]
fn roots_from_entries_are_distinct_and_ordered() {
    let mut a = IndexedEntry::legacy("/z/one", "one", IndexedEntryKind::File);
    a.root = "/z".to_owned();
    let mut b = IndexedEntry::legacy("/a/two", "two", IndexedEntryKind::File);
    b.root = "/a".to_owned();
    let mut c = IndexedEntry::legacy("/z/three", "three", IndexedEntryKind::File);
    c.root = "/z".to_owned();
    let mut d = IndexedEntry::legacy("rel", "rel", IndexedEntryKind::File);
    d.root = String::new();
    assert_eq!(roots_from_entries(&[a, b, c, d]), vec!["/a".to_owned(), "/z".to_owned()]);
}
