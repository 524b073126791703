//! The daemon: changes, admission, requests.
use fxi::query::index::{Document, Index, Language};
use fxi::query::ranking::SearchMatch;
use fxi::server::admission::{configured_limit, is_search, overloaded, Admission};
use fxi::server::cached::CachedIndex;
use fxi::server::client_windows::{
    content_answer, ping_answer, reload_answer, search_answer, shutdown_answer, status_answer,
    ClientError,
};
use fxi::server::control_unix;
use fxi::server::daemon_core::{
    accepts_connection, accumulate_native_event, after_reconcile, batch_paths, ensure_index_loaded,
    handle_request,
    handle_reload, handle_status, poll_timeout, reconcile_is_due, reload_is_visible, reload_reply,
    remove_reply, resolve_loaded_root, should_compact, shutdown_reply, shutdown_result, watch_status_reply, Handling, IndexMeta,
    LoadStep, LoadedIndex, NativeEvent, NativeKind, Reconciled, ReloadStep, RootState, Rooms, UpdateStep,
};
use fxi::server::daemon_windows;
use fxi::server::debouncer::{combine, is_settled, time_left, EventDebouncer};
use fxi::server::interval::Interval;
use fxi::server::launcher_macos::helper_command;
use fxi::server::pid::{read_pid, PidError};
use fxi::server::pending::{take_messages, FlushOutcome, PendingTable};
use fxi::server::protocol::{
    frame_length, frame_message, unframe_message, ContentSearchOptions, FrameError, Request,
    Response, SearchResponse, PROTOCOL_VERSION, SEARCH_OVERLOADED_PREFIX,
};
use fxi::server::requests::{
    handle_content_search, handle_search, prepare_search, rank_search, scope_of, SearchStep,
};
use fxi::server::watcher::{
    ChangeBatch, ChangeKind, ConfigFile, FileChange, Overrides, WatcherConfig, WatcherConfigFile,
    WatcherMessage, DEFAULT_DEBOUNCE_MS, DEFAULT_DELTA_FLUSH_INTERVAL_SECS,
    DEFAULT_MERGE_SEGMENT_THRESHOLD, DEFAULT_REBUILD_THRESHOLD_PERCENT,
};

fn change(path: &str, kind: ChangeKind) -> FileChange {
    FileChange { path: path.to_string(), kind }
}

fn quick_config() -> WatcherConfig {
    WatcherConfig {
        debounce_ms: 50, // Short for testing
        ..Default::default()
    }
}

/// Waits until the changes have settled.
fn settle(debouncer: &EventDebouncer) {
    while !debouncer.is_ready() {}
}

#[test]
fn control_unix_invalid_pids_never_reach_process_signalling() {
    for invalid in ["0", "-1", "not-a-pid", "99999999999999999999"] {
        assert!(control_unix::positive_pid(invalid).is_err());
    }
    assert_eq!(control_unix::positive_pid(" 42\n").unwrap(), 42);
}

#[test]
fn daemon_windows_invalid_pids_never_reach_process_signalling() {
    for invalid in ["0", "-1", "not-a-pid", "99999999999999999999"] {
        assert!(daemon_windows::positive_pid(invalid).is_err());
    }
    assert_eq!(daemon_windows::positive_pid(" 42\n").unwrap(), 42);
}

#[test]
fn test_debouncer_single_event() {
    let mut debouncer = EventDebouncer::new(quick_config());
    debouncer.add_event("test.rs".to_string(), ChangeKind::Modified);

    assert!(debouncer.has_pending());
    assert_eq!(debouncer.pending_count(), 1);

    // Wait for debounce
    settle(&debouncer);
    assert!(debouncer.is_ready());

    let batch = debouncer.flush().unwrap();
    assert_eq!(batch.modified.len(), 1);
    assert!(batch.created.is_empty());
    assert!(batch.deleted.is_empty());
}

#[test]
fn test_debouncer_create_then_modify() {
    let mut debouncer = EventDebouncer::new(quick_config());
    debouncer.add_event("test.rs".to_string(), ChangeKind::Created);
    debouncer.add_event("test.rs".to_string(), ChangeKind::Modified);

    settle(&debouncer);
    let batch = debouncer.flush().unwrap();

    // Should be just Created, not Modified
    assert_eq!(batch.created.len(), 1);
    assert!(batch.modified.is_empty());
}

#[test]
fn test_debouncer_create_then_delete() {
    let mut debouncer = EventDebouncer::new(quick_config());
    debouncer.add_event("test.rs".to_string(), ChangeKind::Created);
    debouncer.add_event("test.rs".to_string(), ChangeKind::Deleted);

    settle(&debouncer);
    // Create + Delete = noop
    let batch = debouncer.flush();
    assert!(batch.is_none() || batch.unwrap().is_empty());
}

#[test]
fn test_debouncer_delete_then_create() {
    let mut debouncer = EventDebouncer::new(quick_config());
    debouncer.add_event("test.rs".to_string(), ChangeKind::Deleted);
    debouncer.add_event("test.rs".to_string(), ChangeKind::Created);

    settle(&debouncer);
    let batch = debouncer.flush().unwrap();

    // Delete + Create = Modified (file replaced)
    assert_eq!(batch.modified.len(), 1);
    assert!(batch.created.is_empty());
    assert!(batch.deleted.is_empty());
}

#[test]
fn test_debouncer_multiple_files() {
    let mut debouncer = EventDebouncer::new(quick_config());
    debouncer.add_event("a.rs".to_string(), ChangeKind::Created);
    debouncer.add_event("b.rs".to_string(), ChangeKind::Modified);
    debouncer.add_event("c.rs".to_string(), ChangeKind::Deleted);

    settle(&debouncer);
    let batch = debouncer.flush().unwrap();

    assert_eq!(batch.created.len(), 1);
    assert_eq!(batch.modified.len(), 1);
    assert_eq!(batch.deleted.len(), 1);
}

#[test]
fn test_debouncer_not_ready_immediately() {
    let mut debouncer = EventDebouncer::new(quick_config());
    debouncer.add_event("test.rs".to_string(), ChangeKind::Modified);

    // Should not be ready immediately
    assert!(!debouncer.is_ready());
    assert!(!debouncer.time_until_ready().unwrap().is_zero());
}

#[test]
fn test_debouncer_clear() {
    let mut debouncer = EventDebouncer::new(quick_config());
    debouncer.add_event("test.rs".to_string(), ChangeKind::Modified);
    assert!(debouncer.has_pending());

    debouncer.clear();
    assert!(!debouncer.has_pending());
    assert_eq!(debouncer.pending_count(), 0);
}

#[test]
fn changes_settle_when_quiet_or_old() {
    let ms = Interval::from_millis;
    assert!(!is_settled(ms(0), ms(50), ms(1)));
    assert!(is_settled(ms(1), ms(50), ms(1)));
    assert!(is_settled(ms(0), ms(100), ms(1)));
    // A longer window is kept.
    assert!(!is_settled(ms(0), ms(100), ms(500)));
    assert!(time_left(ms(30), ms(30), ms(50)) == ms(20));
    assert!(time_left(ms(0), ms(95), ms(50)) == ms(5));
    assert!(time_left(ms(60), ms(60), ms(50)).is_zero());
}

#[test]
fn without_changes_nothing_is_waited_for() {
    let mut debouncer = EventDebouncer::new(quick_config());
    assert!(debouncer.time_until_ready().is_none());
    assert!(!debouncer.is_ready());
    debouncer.add_event("a".to_string(), ChangeKind::Created);
    debouncer.add_event("a".to_string(), ChangeKind::Deleted);
    assert!(debouncer.time_until_ready().is_none());
    assert!(debouncer.flush().is_none());
}

#[test]
fn test_change_batch_add_created() {
    let mut batch = ChangeBatch::new();
    batch.add(change("test.rs", ChangeKind::Created));
    assert_eq!(batch.created.len(), 1);
    assert!(batch.modified.is_empty());
    assert!(batch.deleted.is_empty());
}

#[test]
fn test_change_batch_create_then_modify() {
    let mut batch = ChangeBatch::new();
    batch.add(change("test.rs", ChangeKind::Created));
    batch.add(change("test.rs", ChangeKind::Modified));
    // Modified should not be added if file was just created
    assert_eq!(batch.created.len(), 1);
    assert!(batch.modified.is_empty());
}

#[test]
fn test_change_batch_create_then_delete() {
    let mut batch = ChangeBatch::new();
    batch.add(change("test.rs", ChangeKind::Created));
    batch.add(change("test.rs", ChangeKind::Deleted));
    // Create + delete = noop, but file still in deleted list
    assert!(batch.created.is_empty());
    assert_eq!(batch.deleted.len(), 1);
}

#[test]
fn test_change_batch_total_changes() {
    let mut batch = ChangeBatch::new();
    batch.add(change("a.rs", ChangeKind::Created));
    batch.add(change("b.rs", ChangeKind::Modified));
    batch.add(change("c.rs", ChangeKind::Deleted));
    assert_eq!(batch.total_changes(), 3);
}

#[test]
fn test_watcher_config_default() {
    let config = WatcherConfig::default();
    assert_eq!(config.debounce_ms, DEFAULT_DEBOUNCE_MS);
    assert_eq!(
        config.delta_flush_interval_secs,
        DEFAULT_DELTA_FLUSH_INTERVAL_SECS
    );
    assert_eq!(
        config.merge_segment_threshold,
        DEFAULT_MERGE_SEGMENT_THRESHOLD
    );
    assert_eq!(
        config.rebuild_threshold_percent,
        DEFAULT_REBUILD_THRESHOLD_PERCENT
    );
}

#[test]
fn test_watcher_config_durations() {
    let config = WatcherConfig {
        debounce_ms: 1000,
        delta_flush_interval_secs: 60,
        merge_segment_threshold: 10,
        rebuild_threshold_percent: 25,
    };
    assert_eq!(config.debounce_duration(), Interval::from_millis(1000));
    assert_eq!(config.delta_flush_duration(), Interval::from_secs(60));
}

#[test]
fn test_change_batch_merge() {
    let mut batch1 = ChangeBatch::new();
    batch1.add(change("a.rs", ChangeKind::Created));
    batch1.add(change("b.rs", ChangeKind::Modified));

    let mut batch2 = ChangeBatch::new();
    batch2.add(change("c.rs", ChangeKind::Deleted));
    batch2.add(change("d.rs", ChangeKind::Created));

    batch1.merge(batch2);
    assert_eq!(batch1.created.len(), 2); // a.rs, d.rs
    assert_eq!(batch1.modified.len(), 1); // b.rs
    assert_eq!(batch1.deleted.len(), 1); // c.rs
    assert_eq!(batch1.total_changes(), 4);
}

#[test]
fn test_change_batch_merge_overlapping() {
    // Test merging batches with overlapping files
    let mut batch1 = ChangeBatch::new();
    batch1.add(change("file.rs", ChangeKind::Created));

    let mut batch2 = ChangeBatch::new();
    batch2.add(change("file.rs", ChangeKind::Modified));

    batch1.merge(batch2);
    // Created + Modified = still Created
    assert_eq!(batch1.created.len(), 1);
    assert!(batch1.modified.is_empty());
}

#[test]
fn test_change_batch_merge_create_then_delete() {
    let mut batch1 = ChangeBatch::new();
    batch1.add(change("temp.rs", ChangeKind::Created));

    let mut batch2 = ChangeBatch::new();
    batch2.add(change("temp.rs", ChangeKind::Deleted));

    batch1.merge(batch2);
    // Created file then deleted = file in deleted list (tombstone needed if it existed before)
    assert!(batch1.created.is_empty());
    assert_eq!(batch1.deleted.len(), 1);
}

#[test]
fn test_change_batch_is_empty() {
    let batch = ChangeBatch::new();
    assert!(batch.is_empty());

    let mut batch2 = ChangeBatch::new();
    batch2.add(change("test.rs", ChangeKind::Modified));
    assert!(!batch2.is_empty());
}

#[test]
fn test_change_batch_clear() {
    let mut batch = ChangeBatch::new();
    batch.add(change("a.rs", ChangeKind::Created));
    batch.add(change("b.rs", ChangeKind::Modified));

    batch.clear();
    assert!(batch.is_empty());
    assert_eq!(batch.total_changes(), 0);
}

#[test]
fn test_change_batch_delete_then_create() {
    // Note: ChangeBatch::add does NOT normalize Delete+Create → Modified.
    // That normalization happens in EventDebouncer, not in ChangeBatch.
    // ChangeBatch just accumulates the changes as-is (with deduplication).
    let mut batch = ChangeBatch::new();
    batch.add(change("config.json", ChangeKind::Deleted));
    batch.add(change("config.json", ChangeKind::Created));

    // Both deleted and created contain the file
    // (the debouncer normalizes this to Modified before creating the batch)
    assert_eq!(batch.deleted.len(), 1);
    assert_eq!(batch.created.len(), 1);
}

#[test]
fn test_change_batch_multiple_modifications() {
    // Multiple modifications to same file should only appear once
    let mut batch = ChangeBatch::new();
    batch.add(change("file.rs", ChangeKind::Modified));
    batch.add(change("file.rs", ChangeKind::Modified));
    batch.add(change("file.rs", ChangeKind::Modified));

    assert_eq!(batch.modified.len(), 1);
}

#[test]
fn settings_of_the_environment_come_before_those_of_the_file() {
    let file = ConfigFile {
        watcher: WatcherConfigFile {
            debounce_ms: Some(1000),
            delta_flush_interval_secs: Some(60),
            merge_segment_threshold: Some(10),
            rebuild_threshold_percent: None,
        },
    };
    let env = Overrides {
        debounce_ms: Some("7".to_string()),
        delta_flush_secs: Some("many".to_string()),
        merge_segments: None,
        rebuild_threshold: None,
    };
    let config = WatcherConfig::load(Some(file), &env);
    assert_eq!(config.debounce_ms, 7);
    assert_eq!(config.delta_flush_interval_secs, 60);
    assert_eq!(config.merge_segment_threshold, 10);
    assert_eq!(config.rebuild_threshold_percent, DEFAULT_REBUILD_THRESHOLD_PERCENT);
    let env = Overrides {
        debounce_ms: None,
        delta_flush_secs: None,
        merge_segments: None,
        rebuild_threshold: Some("25".to_string()),
    };
    let config = WatcherConfig::from_env(&env);
    assert_eq!(config.debounce_ms, 1);
    assert_eq!(config.delta_flush_interval_secs, 0);
    assert_eq!(config.rebuild_threshold_percent, 25);
}

fn make_meta(
    delta_segments: Vec<u16>,
    delta_baseline: usize,
    tombstone_count: u32,
    doc_count: u32,
) -> IndexMeta {
    IndexMeta {
        delta_segments,
        delta_baseline,
        tombstone_count,
        doc_count,
        ..Default::default()
    }
}

#[test]
fn test_should_compact_no_deltas() {
    // Fresh index with no new deltas
    let meta = make_meta(vec![], 0, 0, 1000);
    assert!(!should_compact(&meta, 15));
}

#[test]
fn test_should_compact_below_threshold() {
    // 5 new deltas, threshold is 15
    let meta = make_meta(vec![1, 2, 3, 4, 5], 0, 0, 1000);
    assert!(!should_compact(&meta, 15));
}

#[test]
fn test_should_compact_at_threshold() {
    // 15 new deltas, threshold is 15
    let meta = make_meta((1..=15).collect(), 0, 0, 1000);
    assert!(should_compact(&meta, 15));
}

#[test]
fn test_should_compact_with_baseline() {
    // Chunked index: 20 initial segments (baseline=19), 5 new deltas
    // Total delta_segments = 24, but only 5 are new
    let meta = make_meta((1..=24).collect(), 19, 0, 100000);
    assert!(!should_compact(&meta, 15));

    // Now add more to reach 15 new deltas (19 baseline + 15 new = 34 total)
    let meta = make_meta((1..=34).collect(), 19, 0, 100000);
    assert!(should_compact(&meta, 15));
}

#[test]
fn test_should_compact_after_merge() {
    // After merge: baseline reset to 0, no deltas
    let meta = make_meta(vec![], 0, 0, 100000);
    assert!(!should_compact(&meta, 15));

    // After merge + 15 new deltas
    let meta = make_meta((1..=15).collect(), 0, 0, 100000);
    assert!(should_compact(&meta, 15));
}

#[test]
fn test_should_compact_tombstone_ratio() {
    // High tombstone ratio should trigger even with few deltas
    // 20% tombstones (200/1000) exceeds 15% threshold
    let meta = make_meta(vec![1, 2], 0, 200, 1000);
    assert!(should_compact(&meta, 15));

    // 10% tombstones (100/1000) does not exceed threshold
    let meta = make_meta(vec![1, 2], 0, 100, 1000);
    assert!(!should_compact(&meta, 15));
}

#[test]
fn test_should_compact_zero_docs() {
    // Edge case: empty index
    let meta = make_meta(vec![], 0, 0, 0);
    assert!(!should_compact(&meta, 15));
}

#[test]
fn watcher_backlog_is_bounded_and_preserves_every_message() {
    let mut queue: Vec<WatcherMessage> = (0..1300)
        .map(|i| WatcherMessage::ChangesReady {
            root_path: i.to_string(),
            batch: ChangeBatch::new(),
        })
        .collect();
    let mut messages = take_messages(&mut queue);
    assert_eq!(messages.len(), 1024);
    messages.extend(take_messages(&mut queue));
    let roots: Vec<_> = messages
        .into_iter()
        .map(|message| {
            let WatcherMessage::ChangesReady { root_path, .. } = message else {
                panic!("wrong message")
            };
            root_path
        })
        .collect();
    assert_eq!(
        roots,
        (0..1300).map(|i| i.to_string()).collect::<Vec<_>>()
    );
}

fn native(kind: NativeKind, paths: &[&str]) -> NativeEvent {
    NativeEvent {
        failed: false,
        need_rescan: false,
        kind,
        paths: paths.iter().map(|p| p.to_string()).collect(),
    }
}

#[test]
fn native_notifications_preserve_paths_and_replacements() {
    let root = "/root";
    let mut debouncer = EventDebouncer::new(WatcherConfig::default());
    // A create/delete sequence may replace an existing indexed path.
    for _ in 0..2 {
        accumulate_native_event(root, &mut debouncer, &native(NativeKind::Change, &["/root/a.rs"]));
    }
    accumulate_native_event(
        root,
        &mut debouncer,
        &native(NativeKind::Change, &["/root/old.rs", "/root/new.rs"]),
    );
    let mut paths = debouncer.flush().unwrap().modified;
    paths.sort();
    assert_eq!(paths, ["a.rs", "new.rs", "old.rs"]);
}

#[test]
fn incomplete_native_notifications_always_request_full_reconciliation() {
    let root = "/root";
    let events = [
        NativeEvent { failed: true, ..native(NativeKind::Vague, &[]) },
        native(NativeKind::Vague, &["/root/a.rs"]),
        native(NativeKind::Change, &[]),
        native(NativeKind::Change, &["/outside/a.rs"]),
        // A rescan flag takes precedence even over an access event.
        NativeEvent { need_rescan: true, ..native(NativeKind::Access, &[]) },
    ];
    for event in events {
        let mut debouncer = EventDebouncer::new(WatcherConfig::default());
        accumulate_native_event(root, &mut debouncer, &event);
        assert_eq!(debouncer.flush().unwrap().modified, [""]);
    }
    let mut debouncer = EventDebouncer::new(WatcherConfig::default());
    accumulate_native_event(root, &mut debouncer, &native(NativeKind::Access, &["/root/a.rs"]));
    assert!(!debouncer.has_pending());
}

#[test]
fn room_is_limited_and_given_back() {
    let mut admission = Admission::new(3);
    for _ in 0..3 {
        assert!(admission.try_acquire());
    }
    assert!(!admission.try_acquire());
    for _ in 0..3 {
        admission.release();
    }
    for _ in 0..3 {
        assert!(admission.try_acquire());
    }
    assert!(!admission.try_acquire());
    admission.release();
    assert!(admission.try_acquire());
}

#[test]
fn unwind_returns_capacity_and_configuration_is_bounded() {
    let mut admission = Admission::new(1);
    assert!(admission.try_acquire());
    admission.release();
    assert!(admission.try_acquire());
    for (value, expected) in [
        (None, 8),
        (Some("bad"), 8),
        (Some("0"), 1),
        (Some("2"), 2),
        (Some("9999"), 256),
    ] {
        assert_eq!(configured_limit(value, 8), expected);
    }
    for control in [
        Request::Ping,
        Request::Status,
        Request::Shutdown,
        Request::Hello {
            protocol_version: 1,
        },
        Request::WatchStatus { root_path: None },
    ] {
        assert!(!is_search(&control));
    }
}

#[test]
fn searches_do_not_take_the_room_of_control_requests() {
    let search = || Request::Search { query: "x".to_string(), root_path: None, limit: 0 };
    let mut rooms = Rooms {
        searches: Admission::new(1),
        per_connection: Admission::new(4),
        controls: Admission::new(1),
    };
    assert!(rooms.let_in(&search()).is_ok());
    match rooms.let_in(&search()) {
        Err(Response::Error { message }) => assert!(message.starts_with(SEARCH_OVERLOADED_PREFIX)),
        other => panic!("{other:?}"),
    }
    assert!(rooms.let_in(&Request::Ping).is_ok());
    match rooms.let_in(&Request::Status) {
        Err(Response::Error { message }) => {
            assert_eq!(message, "Too many concurrent control requests")
        }
        other => panic!("{other:?}"),
    }
    rooms.leave(true);
    assert!(rooms.let_in(&search()).is_ok());
    rooms.leave(false);
    assert!(rooms.let_in(&Request::Ping).is_ok());
    assert!(accepts_connection(63));
    assert!(!accepts_connection(64));
    assert!(matches!(overloaded(), Response::Error { .. }));
}

fn batch(path: &str) -> ChangeBatch {
    let mut b = ChangeBatch::new();
    b.add(change(path, ChangeKind::Modified));
    b
}

const SECOND: u64 = 1_000_000_000;

#[test]
fn visible_changes_are_written_when_quiet_old_or_due() {
    for mode in 0..3u64 {
        let root = "/root".to_string();
        let mut table = PendingTable::new();
        let start = 100 * SECOND;
        table.accumulate_changes(root.clone(), batch("0.rs"), true, start);
        // The changes are visible at once, but not written.
        assert_eq!(table.due(start, 60 * SECOND, true), vec![(root.clone(), false)]);
        let taken = table.take(&root).unwrap();
        table.settle(root.clone(), taken, FlushOutcome::Visible, start);
        assert!(!table.get(&root).unwrap().needs_visibility);
        let interval = if mode == 2 { 60 * SECOND } else { 0 };
        assert!(table.due(start, interval, true).is_empty());
        let (now, last) = match mode {
            0 => (start + 2 * SECOND, start + SECOND),
            1 => (start + 11 * SECOND, start + 11 * SECOND),
            _ => (start + 61 * SECOND, start + 61 * SECOND),
        };
        table.roots[0].1.last_change = last;
        assert_eq!(table.due(now, interval, true), vec![(root.clone(), true)]);
        let taken = table.take(&root).unwrap();
        table.settle(root.clone(), taken, FlushOutcome::Written, now);
        assert!(table.is_empty());
    }
}

#[test]
fn default_settings_write_changes_without_delay() {
    let mut table = PendingTable::new();
    table.queue_reconciliation("/root".to_string(), true, SECOND);
    let interval = WatcherConfig::default().delta_flush_duration();
    assert!(interval.is_zero());
    assert_eq!(table.due(SECOND, 0, false), vec![("/root".to_string(), true)]);
}

#[test]
fn a_failed_update_is_tried_again() {
    let root = "/root".to_string();
    let mut table = PendingTable::new();
    table.accumulate_changes(root.clone(), batch("a.rs"), true, 0);
    let taken = table.take(&root).unwrap();
    assert!(table.is_empty());
    table.settle(root.clone(), taken, FlushOutcome::Failed, 10 * SECOND);
    assert_eq!(table.get(&root).unwrap().batch.modified, ["a.rs"]);
    assert!(table.due(10 * SECOND, 0, false).is_empty());
    assert_eq!(table.due(11 * SECOND, 0, false), vec![(root, true)]);
}

#[test]
fn newer_changes_join_restored_ones() {
    let root = "/root".to_string();
    let mut table = PendingTable::new();
    table.accumulate_changes(root.clone(), batch("old.rs"), true, 0);
    let taken = table.take(&root).unwrap();
    table.accumulate_changes(root.clone(), batch("new.rs"), true, SECOND);
    table.restore_pending_changes(root.clone(), taken);
    let pending = table.get(&root).unwrap();
    let mut paths = pending.batch.modified.clone();
    paths.sort();
    assert_eq!(paths, ["new.rs", "old.rs"]);
    assert_eq!(pending.first_change, 0);
    assert!(pending.needs_visibility);
}

#[test]
fn messages_of_roots_that_are_not_loaded_are_dropped() {
    let mut table = PendingTable::new();
    table.take_message(
        WatcherMessage::ChangesReady { root_path: "/gone".to_string(), batch: batch("a.rs") },
        false,
        0,
    );
    table.take_message(
        WatcherMessage::Error { root_path: "/gone".to_string(), message: "lost".to_string() },
        false,
        0,
    );
    assert!(table.is_empty());
    table.take_message(
        WatcherMessage::RequestRebuild { root_path: "/kept".to_string(), reason: "x".to_string() },
        true,
        0,
    );
    assert_eq!(table.get(&"/kept".to_string()).unwrap().batch.modified, [""]);
}

#[test]
fn a_batch_is_taken_in_order_of_its_kinds() {
    let mut b = ChangeBatch::new();
    b.add(change("d", ChangeKind::Deleted));
    b.add(change("m", ChangeKind::Modified));
    b.add(change("c", ChangeKind::Created));
    assert_eq!(batch_paths(&b), ["c", "m", "d"]);
}

#[test]
fn an_unchanged_index_is_compacted_where_due() {
    let step = |current, compact| after_reconcile(Reconciled::Unchanged { current, compact });
    assert!(matches!(step(true, true), UpdateStep::Reopen));
    assert!(matches!(step(true, false), UpdateStep::RestoreDurable));
    assert!(matches!(step(false, false), UpdateStep::Reopen));
    assert!(matches!(after_reconcile(Reconciled::Visible), UpdateStep::KeepPending));
    assert!(matches!(after_reconcile(Reconciled::Failed), UpdateStep::Rebuild));
    assert!(matches!(after_reconcile(Reconciled::SourceUnreadable), UpdateStep::Fail));
}

/// An index of files with every trigram of their texts.
fn index_of(files: &[(&str, &str)]) -> Index {
    let mut trigram_docs: Vec<(u32, roaring::RoaringBitmap)> = Vec::new();
    let mut documents = Vec::new();
    for (number, (path, text)) in files.iter().enumerate() {
        for w in text.as_bytes().windows(3) {
            let gram = ((w[0] as u32) << 16) | ((w[1] as u32) << 8) | (w[2] as u32);
            match trigram_docs.iter_mut().find(|(g, _)| *g == gram) {
                Some((_, set)) => {
                    set.insert(number as u32);
                }
                None => {
                    let mut set = roaring::RoaringBitmap::new();
                    set.insert(number as u32);
                    trigram_docs.push((gram, set));
                }
            }
        }
        documents.push(Document {
            path: path.to_string(),
            language: Language::Unknown,
            size: text.len() as u64,
            mtime: 1,
            valid: true,
            content: Some(text.to_string()),
        });
    }
    Index { documents, stop_grams: vec![], trigram_docs, token_docs: vec![] }
}

#[test]
fn compact_files_preserve_legacy_results_limits_and_freshness() {
    let root = "/root";
    let mut index = index_of(&[("with space.txt", "needle\n"), ("K.txt", "needle\n")]);
    let search = |index: &Index, compact: bool, limit: usize| {
        let response = handle_content_search(
            index,
            "needle",
            Some(root),
            root.to_string(),
            limit,
            ContentSearchOptions {
                files_only: true,
                compact_files: compact,
                ..Default::default()
            },
        );
        let Response::ContentSearch(response) = response else {
            panic!("search failed")
        };
        assert_eq!(response.resolved_root.as_deref(), Some(root));
        if compact {
            assert!(response.matches.is_empty());
            let paths = response.file_paths.unwrap();
            assert_eq!(response.files_with_matches, paths.len());
            paths
        } else {
            assert!(response.file_paths.is_none());
            response.matches.into_iter().map(|m| m.path).collect::<Vec<_>>()
        }
    };
    for limit in [0, 1] {
        assert_eq!(search(&index, true, limit), search(&index, false, limit));
    }
    let changed = index.documents.iter_mut().find(|d| d.path == "K.txt").unwrap();
    changed.content = Some("absent\n".to_string());
    assert_eq!(search(&index, true, 0), vec!["with space.txt".to_string()]);
}

#[test]
fn count_responses_preserve_legacy_counts_and_limits() {
    let text = "needle needle\nneedle\n";
    let index = index_of(&[("a.txt", text), ("b.txt", text)]);
    for limit in [0, 1, 3] {
        let search = |counts_only| {
            let response = handle_content_search(
                &index,
                "re:/needle/",
                Some("/root"),
                "/root".to_string(),
                limit,
                ContentSearchOptions {
                    counts_only,
                    ..Default::default()
                },
            );
            let Response::ContentSearch(response) = response else {
                panic!("search failed")
            };
            response
        };
        let legacy = search(false);
        assert!(legacy.file_counts.is_none());
        let mut expected = std::collections::BTreeMap::new();
        for m in legacy.matches {
            *expected.entry(m.path).or_insert(0usize) += 1;
        }
        let compact = search(true);
        assert!(compact.matches.is_empty());
        assert_eq!(compact.files_with_matches, expected.len());
        assert_eq!(
            compact.file_counts.unwrap(),
            expected.into_iter().collect::<Vec<_>>()
        );
    }
}

/// The answer to a ranked search, all matches with the same score.
fn ranked_response(
    index: &Index,
    query: &str,
    requested: Option<&str>,
    limit: usize,
) -> SearchResponse {
    match handle_search(index, query, requested, "/root".to_string(), limit) {
        SearchStep::Rank(query, found) => {
            let scores = vec![1; found.results.len()];
            let root = "/root".to_string();
            match rank_search(index, &query, &found, &scores, 1, limit, root) {
                Response::Search(response) => response,
                other => panic!("{other:?}"),
            }
        }
        SearchStep::Reply(other) => panic!("{other:?}"),
    }
}

/// The matches of a ranked search.
fn ranked(index: &Index, query: &str, requested: Option<&str>, limit: usize) -> Vec<SearchMatch> {
    ranked_response(index, query, requested, limit).matches
}

#[test]
fn ranked_wire_limits_override_defaults_and_intersect_explicit_top() {
    let names: Vec<String> = (0..180).map(|i| format!("{i}.rs")).collect();
    let files: Vec<(&str, &str)> = names.iter().map(|n| (n.as_str(), "rankLimitMarker\n")).collect();
    let index = index_of(&files);
    for (query, wire_limit, expected) in [
        ("rankLimitMarker", 150, 150),
        ("rankLimitMarker top:7", 150, 7),
        ("rankLimitMarker top:200", 150, 150),
        ("rankLimitMarker top:7", 0, 7),
        ("rankLimitMarker", 0, 180),
        ("rankLimitMarker top:0", 150, 150),
    ] {
        assert_eq!(
            ranked(&index, query, Some("/root"), wire_limit).len(),
            expected,
            "query={query}, wire={wire_limit}"
        );
    }
}

#[test]
fn requested_subtree_and_file_scopes_intersect_existing_query_filters() {
    let text = "scopeApiMarker\n";
    let index = index_of(&[
        ("other/d.rs", text),
        ("sub/a.rs", text),
        ("sub/b.txt", text),
        ("submarine/c.rs", text),
    ]);
    for (scope, expected) in [("sub", vec!["sub/a.rs"]), ("sub/b.txt", vec![])] {
        let requested = format!("/root/{scope}");
        let found = ranked_response(&index, "scopeApiMarker ext:rs", Some(&requested), 0);
        assert_eq!(found.resolved_root.as_deref(), Some("/root"));
        assert_eq!(found.matches.into_iter().map(|hit| hit.path).collect::<Vec<_>>(), expected);
        let content = handle_content_search(
            &index,
            "scopeApiMarker ext:rs",
            Some(&requested),
            "/root".to_string(),
            0,
            ContentSearchOptions {
                files_only: true,
                compact_files: true,
                ..Default::default()
            },
        );
        let Response::ContentSearch(content) = content else {
            panic!("{content:?}");
        };
        assert_eq!(content.file_paths.unwrap(), expected);
    }
}

#[test]
fn status_reports_live_documents_after_a_tombstoning_update() {
    let loaded = LoadedIndex {
        root: "/root".to_string(),
        live_docs: 12,
        doc_count: 13,
        watching: true,
    };
    let status = handle_status(&vec![loaded], 5, 3, true, "1.2.3");
    assert_eq!(status.total_docs, 12);
    assert_eq!(status.indexes_loaded, 1);
    assert_eq!(status.uptime_secs, 5);
    assert_eq!(status.queries_served, 3);
    assert_eq!(status.watched_roots, ["/root"]);
    assert_eq!(status.protocol_version, PROTOCOL_VERSION);
    assert_eq!(status.server_version, "1.2.3");
}

#[test]
fn a_malformed_search_is_answered_with_its_error() {
    let index = index_of(&[]);
    let response = handle_content_search(
        &index,
        "(open",
        None,
        "/root".to_string(),
        0,
        ContentSearchOptions::default(),
    );
    match response {
        Response::Error { message } => {
            assert_eq!(message, "Unclosed parenthesized expression at byte 5")
        }
        other => panic!("{other:?}"),
    }
    assert!(prepare_search("ext:", None, "/root", 0).is_err());
}

#[test]
fn whole_words_limit_a_content_search() {
    let index = index_of(&[("a.txt", "needles\n"), ("b.txt", "a needle here\n")]);
    let response = handle_content_search(
        &index,
        "needle",
        None,
        "/root".to_string(),
        0,
        ContentSearchOptions {
            word_regexp: true,
            context_before: 1,
            context_after: 1,
            ..Default::default()
        },
    );
    let Response::ContentSearch(response) = response else {
        panic!("{response:?}");
    };
    assert_eq!(response.matches.len(), 1);
    assert_eq!(response.matches[0].path, "b.txt");
    assert_eq!((response.matches[0].match_start, response.matches[0].match_end), (2, 8));
    assert_eq!(response.files_with_matches, 1);
}

#[test]
fn scopes_are_relative_to_the_root() {
    assert_eq!(scope_of(Some("/root/sub/x"), "/root").as_deref(), Some("sub/x"));
    assert_eq!(scope_of(Some("/root"), "/root"), None);
    assert_eq!(scope_of(Some("/elsewhere"), "/root"), None);
    assert_eq!(scope_of(None, "/root"), None);
}

#[test]
fn requests_are_refused_while_shutting_down() {
    let search = Request::Search { query: "x".to_string(), root_path: None, limit: 0 };
    match handle_request(search, true, "v") {
        Handling::Reply(Response::Error { message }) => assert_eq!(message, "Daemon is shutting down"),
        other => panic!("{other:?}"),
    }
    assert!(matches!(
        handle_request(Request::Ping, true, "v"),
        Handling::Reply(Response::Pong)
    ));
    match handle_request(Request::Hello { protocol_version: 1 }, false, "v") {
        Handling::Reply(Response::Hello { protocol_version, server_version }) => {
            assert_eq!(protocol_version, PROTOCOL_VERSION);
            assert_eq!(server_version, "v");
        }
        other => panic!("{other:?}"),
    }
    assert!(matches!(
        handle_request(Request::Status, false, "v"),
        Handling::CarryOut(Request::Status)
    ));
}

#[test]
fn shutting_down_is_acknowledged_when_all_is_written() {
    assert!(matches!(shutdown_reply(Some(shutdown_result(true))), Response::ShuttingDown));
    match shutdown_reply(Some(shutdown_result(false))) {
        Response::Error { message } => assert!(message.starts_with("Shutdown could not persist")),
        other => panic!("{other:?}"),
    }
    match shutdown_reply(None) {
        Response::Error { message } => {
            assert_eq!(message, "Shutdown persistence did not complete before the deadline")
        }
        other => panic!("{other:?}"),
    }
}

#[test]
fn replies_name_the_root() {
    let root = || "/root".to_string();
    assert!(matches!(
        reload_reply(Ok(()), root()),
        Response::Reloaded { success: true, resolved_root: Some(_), .. }
    ));
    assert!(matches!(
        reload_reply(Err("no".to_string()), root()),
        Response::Reloaded { success: false, .. }
    ));
    assert!(matches!(
        watch_status_reply(true, 3, root()),
        Response::WatchStatus { watching: true, pending_changes: 3, .. }
    ));
    assert!(matches!(remove_reply(Ok(()), root()), Response::Reloaded { success: true, .. }));
    assert!(reload_is_visible(false, false).is_ok());
    assert!(reload_is_visible(true, false).is_err());
    assert!(reload_is_visible(false, true).is_err());
}

#[test]
fn one_loaded_root_is_the_default() {
    assert_eq!(resolve_loaded_root(&vec!["/a".to_string()]).unwrap(), "/a");
    assert!(resolve_loaded_root(&vec![]).is_err());
    assert!(resolve_loaded_root(&vec!["/a".to_string(), "/b".to_string()]).is_err());
}

#[test]
fn frames_are_read_back() {
    let body = b"{\"type\":\"ping\"}".to_vec();
    let framed = frame_message(&body);
    assert_eq!(framed[..4], [15, 0, 0, 0]);
    let mut stream = framed.clone();
    stream.extend(frame_message(&b"next".to_vec()));
    let (first, used) = unframe_message(&stream).unwrap();
    assert_eq!(first, body);
    assert_eq!(used, framed.len());
    let (second, _) = unframe_message(&stream[used..].to_vec()).unwrap();
    assert_eq!(second, b"next");
}

#[test]
fn frames_beyond_the_limit_are_refused() {
    let mut bytes = (101 * 1024 * 1024u32).to_le_bytes().to_vec();
    bytes.extend_from_slice(b"body");
    assert_eq!(unframe_message(&bytes), Err(FrameError::TooLarge));
    assert_eq!(frame_length(&vec![1, 0]), Err(FrameError::UnexpectedEof));
    assert_eq!(unframe_message(&vec![5, 0, 0, 0, 1]), Err(FrameError::UnexpectedEof));
    assert_eq!(frame_length(&vec![0, 0, 64, 6]), Ok(104857600));
    assert_eq!(frame_length(&vec![1, 0, 64, 6]), Err(FrameError::TooLarge));
}

#[test]
fn answers_are_told_from_errors() {
    let error = || Response::Error { message: "no".to_string() };
    assert!(ping_answer(Response::Pong).is_ok());
    assert!(shutdown_answer(Response::ShuttingDown).is_ok());
    assert_eq!(ping_answer(error()).unwrap_err().to_string(), "Server error: no");
    assert_eq!(
        status_answer(Response::Pong).unwrap_err().to_string(),
        "Invalid response from server"
    );
    assert!(matches!(search_answer(error()), Err(ClientError::ServerError(_))));
    assert!(matches!(content_answer(Response::Pong), Err(ClientError::InvalidResponse)));
    let reloaded =
        Response::Reloaded { success: true, message: "done".to_string(), resolved_root: None };
    assert_eq!(reload_answer(reloaded).unwrap(), (true, "done".to_string()));
    assert_eq!(ClientError::NotRunning.to_string(), "Index server is not running");
    assert_eq!(ClientError::IoError("gone".to_string()).to_string(), "I/O error: gone");
}

#[test]
fn the_helper_is_told_the_versions() {
    assert_eq!(
        helper_command("1.0", "start", true),
        ["--launcher-version", "1.0", "--launcher-protocol", "2", "start", "--watch"]
    );
    assert_eq!(helper_command("1.0", "foreground", false).len(), 5);
}

#[test]
fn a_watcher_waits_for_its_changes_but_not_long() {
    let ms = Interval::from_millis;
    assert!(poll_timeout(None) == ms(100));
    assert!(poll_timeout(Some(ms(7))) == ms(7));
    assert!(poll_timeout(Some(ms(700))) == ms(100));
    assert!(!reconcile_is_due(Interval::from_secs(299)));
    assert!(reconcile_is_due(Interval::from_secs(300)));
}

#[test]
fn numbers_of_processes_are_positive() {
    assert_eq!(read_pid("-1", 100, true), Err(PidError::NotPositive));
    assert_eq!(read_pid("-1", 100, false), Err(PidError::NotANumber));
    assert_eq!(read_pid("0", 100, true), Err(PidError::NotPositive));
    assert_eq!(read_pid("101", 100, true), Err(PidError::NotANumber));
    assert_eq!(read_pid(" +100\n", 100, true), Ok(100));
    assert_eq!(PidError::NotANumber.to_string(), "Invalid daemon PID; not a number");
    assert_ne!(PidError::NotPositive.to_string(), PidError::NotANumber.to_string());
}

#[test]
fn loading_again_does_not_hide_pending_changes() {
    assert_eq!(handle_reload(false, true), ReloadStep::Load);
    assert_eq!(handle_reload(true, false), ReloadStep::Replace);
    assert_eq!(handle_reload(true, true), ReloadStep::ReplaceBase);
    let root = "/root".to_string();
    let mut table = PendingTable::new();
    assert!(!table.show_again(root.clone()));
    table.accumulate_changes(root.clone(), batch("a.rs"), true, 0);
    let taken = table.take(&root).unwrap();
    table.settle(root.clone(), taken, FlushOutcome::Visible, 0);
    assert!(!table.get(&root).unwrap().needs_visibility);
    assert!(table.show_again(root.clone()));
    assert!(table.get(&root).unwrap().needs_visibility);
}

#[test]
fn previews_do_not_become_the_base_of_updates() {
    let mut index = CachedIndex::new(1);
    let preview = after_reconcile(Reconciled::Visible);
    assert_eq!(index.apply_update(preview, Some(2)), FlushOutcome::Visible);
    assert_eq!((index.live, index.durable), (2, 1));
    let failed = after_reconcile(Reconciled::SourceUnreadable);
    assert_eq!(index.apply_update(failed, None), FlushOutcome::Failed);
    assert_eq!((index.live, index.durable), (2, 1));
    index.reload(handle_reload(true, true), 3);
    assert_eq!((index.live, index.durable), (2, 3));
    let same = after_reconcile(Reconciled::Unchanged { current: true, compact: false });
    assert_eq!(index.apply_update(same, None), FlushOutcome::Written);
    assert_eq!((index.live, index.durable), (3, 3));
    let changed = after_reconcile(Reconciled::Changed);
    assert_eq!(index.apply_update(changed, None), FlushOutcome::Failed);
    assert_eq!(index.apply_update(changed, Some(4)), FlushOutcome::Written);
    assert_eq!((index.live, index.durable), (4, 4));
    index.reload(handle_reload(true, false), 5);
    assert_eq!((index.live, index.durable), (5, 5));
}

#[test]
fn a_ranked_search_that_asks_nothing_is_answered_at_once() {
    let index = Index::new(Vec::new());
    let root = || "/root".to_string();
    match handle_search(&index, "  ", None, root(), 5) {
        SearchStep::Reply(Response::Search(response)) => {
            assert!(response.matches.is_empty());
            assert!(!response.cached);
            assert_eq!(response.resolved_root, Some(root()));
        }
        other => panic!("{other:?}"),
    }
    match handle_search(&index, "ext:", None, root(), 5) {
        SearchStep::Reply(Response::Error { message }) => {
            assert!(message.contains("Missing value for ext"));
        }
        other => panic!("{other:?}"),
    }
}

#[test]
fn a_root_is_loaded_and_then_watched() {
    let at = |loaded, watching| RootState { loaded, watching };
    assert_eq!(ensure_index_loaded(at(false, false), true, false), LoadStep::Open);
    assert_eq!(ensure_index_loaded(at(true, false), true, false), LoadStep::ReconcileAndWatch);
    assert_eq!(ensure_index_loaded(at(true, true), true, false), LoadStep::Ready);
    assert_eq!(ensure_index_loaded(at(true, false), false, false), LoadStep::Ready);
    assert_eq!(ensure_index_loaded(at(true, true), true, true), LoadStep::Ready);
    assert_eq!(ensure_index_loaded(at(false, false), false, true), LoadStep::Refuse);
    assert_eq!(ensure_index_loaded(at(true, false), true, true), LoadStep::Refuse);
}

#[test]
fn two_changes_of_a_file_become_one() {
    assert_eq!(combine(ChangeKind::Created, ChangeKind::Deleted), None);
    let modified = Some(ChangeKind::Modified);
    assert_eq!(combine(ChangeKind::Deleted, ChangeKind::Created), modified);
    assert_eq!(combine(ChangeKind::Created, ChangeKind::Modified), Some(ChangeKind::Created));
    assert_eq!(combine(ChangeKind::Modified, ChangeKind::Deleted), Some(ChangeKind::Deleted));
}

#[test]
fn merging_nothing_changes_nothing() {
    let mut changes = batch("a.rs");
    changes.merge(ChangeBatch::new());
    assert_eq!(changes.modified, ["a.rs"]);
    assert_eq!(changes.total_changes(), 1);
}

#[test]
fn whole_numbers_out_of_range_are_clamped() {
    for (value, expected) in [
        ("-5", 1),
        ("-0", 1),
        ("+7", 7),
        ("0007", 7),
        ("256", 256),
        ("257", 256),
        ("99999999999999999999999", 256),
        ("-99999999999999999999999", 1),
        ("", 8),
        ("-", 8),
        ("+", 8),
        ("--5", 8),
        ("5x", 8),
        (" 5", 8),
    ] {
        assert_eq!(configured_limit(Some(value), 8), expected, "{value:?}");
    }
    assert_eq!(configured_limit(None, 0), 1);
    assert_eq!(configured_limit(Some("x"), 1000), 256);
}

#[test]
fn the_first_of_the_waiting_changes_keeps_its_time() {
    let mut debouncer = EventDebouncer::new(quick_config());
    assert!(debouncer.first_event.is_none());
    debouncer.add_event("a".to_string(), ChangeKind::Modified);
    let first = debouncer.first_event;
    assert_eq!(first, debouncer.last_event);
    for i in 0..100 {
        debouncer.add_event(format!("{i}"), ChangeKind::Modified);
        assert_eq!(debouncer.first_event, first);
    }
    assert!(debouncer.flush().is_some());
    assert!(debouncer.first_event.is_none() && debouncer.last_event.is_none());
    debouncer.add_event("a".to_string(), ChangeKind::Modified);
    debouncer.clear();
    assert!(debouncer.first_event.is_none() && debouncer.last_event.is_none());
}

#[test]
fn changes_that_cancel_out_leave_the_time_of_the_last() {
    let mut debouncer = EventDebouncer::new(WatcherConfig { debounce_ms: 0, ..Default::default() });
    assert!(!debouncer.is_ready());
    debouncer.add_event("a".to_string(), ChangeKind::Created);
    debouncer.add_event("a".to_string(), ChangeKind::Deleted);
    assert!(!debouncer.has_pending());
    assert!(debouncer.is_ready());
    let mut slow =
        EventDebouncer::new(WatcherConfig { debounce_ms: 3_600_000, ..Default::default() });
    slow.add_event("a".to_string(), ChangeKind::Created);
    slow.add_event("a".to_string(), ChangeKind::Deleted);
    assert!(!slow.is_ready());
}
