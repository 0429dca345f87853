use raft_kv::network::message::Response;
use raft_kv::storage::append_only_log::AppendOnlyLog;
use raft_kv::storage::storage::{
    Phase, Storage, StorageError, DEFAULT_COMPACTION_THRESHOLD, PRODUCTION_COMPACTION_THRESHOLD,
};

fn value(storage: &Storage, key: &str) -> Option<String> {
    storage.get_in_memory(key)
}

/// Saves a snapshot and clears the log, as a caller does whose disk works.
fn snapshot(storage: &mut Storage) -> Vec<u8> {
    let bytes = storage.create_snapshot().expect("the engine is ready");
    storage.snapshot_saved(true);
    storage.log_cleared(true);
    bytes
}

#[test]
fn a_new_engine_is_empty_and_ready() {
    let storage = Storage::new();
    assert_eq!(DEFAULT_COMPACTION_THRESHOLD, 5);
    assert_eq!(PRODUCTION_COMPACTION_THRESHOLD, 10_000);
    assert_eq!(storage.phase(), Phase::Ready);
    assert_eq!(storage.operation_count(), 0);
    assert_eq!(storage.last_index(), 0);
    assert_eq!(storage.last_term(), 0);
    assert_eq!(storage.log_text(), "");
    assert!(!storage.snapshot_due());
    assert_eq!(value(&storage, "a"), None);
}

#[test]
fn set_get_delete() {
    let mut storage = Storage::new();
    assert!(storage.set_in_memory("a".to_string(), "1".to_string(), true));
    assert_eq!(value(&storage, "a"), Some("1".to_string()));
    assert!(storage.set_in_memory("a".to_string(), "2".to_string(), true));
    assert_eq!(value(&storage, "a"), Some("2".to_string()));
    assert!(storage.delete_in_memory("a", true));
    assert_eq!(value(&storage, "a"), None);
    assert_eq!(storage.log_records(), vec!["SET a 1", "SET a 2", "DELETE a"]);
    assert_eq!(storage.operation_count(), 3);
}

#[test]
fn a_write_that_is_not_durable_changes_nothing() {
    let mut storage = Storage::new();
    assert!(!storage.set_in_memory("a".to_string(), "1".to_string(), false));
    assert_eq!(value(&storage, "a"), None);
    assert_eq!(storage.operation_count(), 0);
    assert_eq!(storage.log_text(), "");

    storage.set_in_memory("a".to_string(), "1".to_string(), true);
    assert!(!storage.delete_in_memory("a", false));
    assert_eq!(value(&storage, "a"), Some("1".to_string()));
    assert_eq!(storage.log_records(), vec!["SET a 1"]);

    let response = storage.apply(1, 1, "SET b 2", false);
    assert!(matches!(response, Response::Error(ref text) if text == "log append failed"));
    assert_eq!(value(&storage, "b"), None);
    assert_eq!(storage.last_index(), 0);
}

#[test]
fn a_write_that_no_record_can_hold_is_refused() {
    let mut storage = Storage::new();
    assert!(!storage.set_in_memory("a b".to_string(), "1".to_string(), true));
    assert!(!storage.set_in_memory("a".to_string(), "1 2".to_string(), true));
    assert!(!storage.set_in_memory("".to_string(), "1".to_string(), true));
    assert!(!storage.set_in_memory("a".to_string(), "".to_string(), true));
    assert!(!storage.set_in_memory("a\n".to_string(), "1".to_string(), true));
    assert!(!storage.delete_in_memory("a b", true));
    assert_eq!(storage.log_text(), "");
    assert_eq!(storage.operation_count(), 0);
}

#[test]
fn delete_of_an_absent_key_is_idempotent() {
    let mut storage = Storage::new();
    storage.set_in_memory("k".to_string(), "v".to_string(), true);
    assert!(matches!(storage.apply(1, 1, "DELETE k", true), Response::Success(true)));
    assert!(matches!(storage.apply(2, 1, "DELETE k", true), Response::Success(false)));
    assert!(matches!(storage.apply(3, 1, "DELETE k", true), Response::Success(false)));
    assert!(!storage.delete_in_memory("k", true));
    assert!(!storage.delete_in_memory("never", true));
    assert_eq!(value(&storage, "k"), None);
}

#[test]
fn get_returns_the_last_set_that_no_delete_follows() {
    let mut storage = Storage::with_threshold(1000);
    let commands = [
        "SET a 1", "SET b 1", "DELETE a", "SET c 1", "SET a 2", "SET b 2", "DELETE c",
        "DELETE d", "SET a 3", "DELETE b", "SET b 4", "SET e 1", "DELETE e",
    ];
    for (i, command) in commands.iter().enumerate() {
        storage.apply(i as u64 + 1, 1, command, true);
    }
    assert_eq!(value(&storage, "a"), Some("3".to_string()));
    assert_eq!(value(&storage, "b"), Some("4".to_string()));
    assert_eq!(value(&storage, "c"), None);
    assert_eq!(value(&storage, "d"), None);
    assert_eq!(value(&storage, "e"), None);
}

#[test]
fn apply_answers_each_kind_of_command() {
    let mut storage = Storage::new();
    assert!(matches!(storage.apply(1, 1, "SET a 1", true), Response::Success(true)));
    assert!(matches!(storage.apply(2, 1, "SET a 2", true), Response::Success(true)));
    assert!(matches!(storage.apply(3, 2, "DELETE a", true), Response::Success(true)));
    assert!(matches!(storage.apply(4, 2, "DELETE a", true), Response::Success(false)));
    assert_eq!(storage.last_index(), 4);
    assert_eq!(storage.last_term(), 2);
    assert_eq!(storage.operation_count(), 4);
}

#[test]
fn apply_passes_over_an_unknown_command_and_keeps_it_in_the_log() {
    let mut storage = Storage::new();
    storage.apply(1, 1, "SET a 1", true);
    let response = storage.apply(2, 1, "INCR a", true);
    assert!(matches!(response, Response::Error(ref text) if text == "unknown command"));
    assert_eq!(value(&storage, "a"), Some("1".to_string()));
    assert_eq!(storage.log_records(), vec!["SET a 1", "INCR a"]);
    assert_eq!(storage.operation_count(), 2);
    assert_eq!(storage.last_index(), 2);
}

#[test]
fn apply_refuses_a_command_with_a_line_feed() {
    let mut storage = Storage::new();
    let response = storage.apply(1, 1, "SET a 1\nSET b 2", true);
    assert!(matches!(response, Response::Error(ref text) if text == "malformed command"));
    assert_eq!(storage.log_text(), "");
    assert_eq!(storage.operation_count(), 0);
    assert_eq!(storage.last_index(), 0);
    assert_eq!(value(&storage, "a"), None);
}

#[test]
fn a_snapshot_is_due_at_the_threshold() {
    let mut storage = Storage::with_threshold(3);
    storage.set_in_memory("a".to_string(), "1".to_string(), true);
    storage.set_in_memory("b".to_string(), "1".to_string(), true);
    assert!(!storage.snapshot_due());
    storage.set_in_memory("c".to_string(), "1".to_string(), true);
    assert!(storage.snapshot_due());
    snapshot(&mut storage);
    assert!(!storage.snapshot_due());
    assert_eq!(storage.operation_count(), 0);
    assert_eq!(storage.log_text(), "");
    assert_eq!(value(&storage, "b"), Some("1".to_string()));
}

#[test]
fn no_write_is_accepted_while_a_snapshot_is_under_way() {
    let mut storage = Storage::new();
    storage.set_in_memory("a".to_string(), "1".to_string(), true);
    assert!(storage.create_snapshot().is_some());
    assert_eq!(storage.phase(), Phase::SavingSnapshot);
    assert!(storage.create_snapshot().is_none());
    assert!(storage.compact_log().is_none());
    assert!(!storage.set_in_memory("b".to_string(), "2".to_string(), true));
    assert!(!storage.delete_in_memory("a", true));
    let response = storage.apply(1, 1, "SET b 2", true);
    assert!(matches!(response, Response::Error(ref text) if text == "storage is busy"));
    assert!(!storage.replay_log(AppendOnlyLog::new()));
    assert_eq!(storage.install_snapshot(Vec::new(), 0, 0), Err(StorageError::Busy));
    assert_eq!(storage.load_snapshot(&[]), Err(StorageError::Busy));
    assert_eq!(value(&storage, "a"), Some("1".to_string()));
    assert_eq!(value(&storage, "b"), None);

    storage.snapshot_saved(true);
    assert_eq!(storage.phase(), Phase::ClearingLog);
    assert!(!storage.set_in_memory("b".to_string(), "2".to_string(), true));
    storage.log_cleared(true);
    assert_eq!(storage.phase(), Phase::Ready);
    assert!(storage.set_in_memory("b".to_string(), "2".to_string(), true));
}

#[test]
fn a_failed_snapshot_leaves_the_log_and_the_count() {
    let mut storage = Storage::with_threshold(2);
    storage.set_in_memory("a".to_string(), "1".to_string(), true);
    storage.set_in_memory("b".to_string(), "2".to_string(), true);

    storage.create_snapshot().unwrap();
    storage.snapshot_saved(false);
    assert_eq!(storage.phase(), Phase::Ready);
    assert_eq!(storage.operation_count(), 2);
    assert_eq!(storage.log_records(), vec!["SET a 1", "SET b 2"]);
    assert!(storage.snapshot_due());

    storage.create_snapshot().unwrap();
    storage.snapshot_saved(true);
    storage.log_cleared(false);
    assert_eq!(storage.phase(), Phase::Ready);
    assert_eq!(storage.operation_count(), 2);
    assert_eq!(storage.log_records(), vec!["SET a 1", "SET b 2"]);
    assert!(storage.snapshot_due());
    assert_eq!(value(&storage, "a"), Some("1".to_string()));
}

#[test]
fn reports_outside_their_phase_change_nothing() {
    let mut storage = Storage::new();
    storage.set_in_memory("a".to_string(), "1".to_string(), true);
    storage.snapshot_saved(true);
    storage.log_cleared(true);
    storage.log_rewritten(true);
    assert_eq!(storage.phase(), Phase::Ready);
    assert_eq!(storage.operation_count(), 1);
    assert_eq!(storage.log_records(), vec!["SET a 1"]);
}

#[test]
fn a_snapshot_is_read_back_by_a_new_engine() {
    let mut storage = Storage::new();
    storage.apply(1, 1, "SET x 42", true);
    storage.apply(2, 1, "SET y 7", true);
    storage.apply(3, 2, "DELETE x", true);
    let bytes = snapshot(&mut storage);
    assert!(!bytes.is_empty());

    let mut restarted = Storage::new();
    assert_eq!(restarted.load_snapshot(&bytes), Ok(()));
    assert_eq!(value(&restarted, "x"), None);
    assert_eq!(value(&restarted, "y"), Some("7".to_string()));
    assert_eq!(restarted.last_index(), 3);
    assert_eq!(restarted.last_term(), 2);
}

#[test]
fn snapshot_bytes_are_the_bincode_of_pairs_index_and_term() {
    let mut storage = Storage::new();
    storage.apply(7, 3, "SET k v", true);
    let bytes = storage.create_snapshot().unwrap();
    let expected: Vec<u8> = bincode::serialize(&(
        vec![("k".to_string(), "v".to_string())],
        7u64,
        3u64,
    ))
    .unwrap();
    assert_eq!(bytes, expected);
    assert_eq!(bytes.len(), 8 + (8 + 1) + (8 + 1) + 8 + 8);
}

#[test]
fn bytes_that_hold_no_snapshot_are_corrupted() {
    let mut storage = Storage::new();
    storage.set_in_memory("a".to_string(), "1".to_string(), true);
    assert_eq!(storage.load_snapshot(&[]), Err(StorageError::Corrupted));
    assert_eq!(storage.load_snapshot(&[1, 2, 3]), Err(StorageError::Corrupted));
    assert_eq!(storage.load_snapshot(&[255; 64]), Err(StorageError::Corrupted));
    assert_eq!(value(&storage, "a"), Some("1".to_string()));
    assert_eq!(storage.phase(), Phase::Ready);
}

#[test]
fn a_snapshot_with_whitespace_in_a_key_is_corrupted() {
    let bytes =
        bincode::serialize(&(vec![("a b".to_string(), "v".to_string())], 1u64, 1u64)).unwrap();
    let mut storage = Storage::new();
    assert_eq!(storage.load_snapshot(&bytes), Err(StorageError::Corrupted));
    assert_eq!(
        storage.install_snapshot(vec![("a".to_string(), "".to_string())], 1, 1),
        Err(StorageError::Corrupted)
    );
    assert_eq!(value(&storage, "a b"), None);
    assert_eq!(storage.last_index(), 0);
}

#[test]
fn install_snapshot_replays_the_log_over_the_snapshot() {
    let mut storage = Storage::new();
    storage.set_in_memory("a".to_string(), "new".to_string(), true);
    storage.delete_in_memory("b", true);
    let state = vec![
        ("a".to_string(), "old".to_string()),
        ("b".to_string(), "old".to_string()),
        ("c".to_string(), "old".to_string()),
    ];
    assert_eq!(storage.install_snapshot(state, 9, 4), Ok(()));
    assert_eq!(value(&storage, "a"), Some("new".to_string()));
    assert_eq!(value(&storage, "b"), None);
    assert_eq!(value(&storage, "c"), Some("old".to_string()));
    assert_eq!(storage.last_index(), 9);
    assert_eq!(storage.last_term(), 4);
}

#[test]
fn recovery_replays_the_log_over_the_snapshot() {
    // SET x 42, SET y 7, DELETE x; then the process stops and starts again.
    let mut storage = Storage::new();
    let mut file = String::new();
    for (i, command) in ["SET x 42", "SET y 7", "DELETE x"].iter().enumerate() {
        file.push_str(command);
        file.push('\n');
        storage.apply(i as u64 + 1, 1, command, true);
    }
    assert_eq!(storage.log_text(), file);

    let (log, intact) = AppendOnlyLog::load(&file);
    assert!(intact);
    let restarted = Storage::recover(None, log, 5).unwrap();
    assert_eq!(value(&restarted, "x"), None);
    assert_eq!(value(&restarted, "y"), Some("7".to_string()));
    assert_eq!(restarted.log_text(), file);
}

#[test]
fn recovery_after_a_crash_between_append_and_mutation() {
    // The record of the fourth command reached the file; the engine never
    // heard of it.
    let mut storage = Storage::new();
    storage.apply(1, 1, "SET a 1", true);
    storage.apply(2, 1, "SET b 2", true);
    let file = format!("{}{}", storage.log_text(), "DELETE a\n");
    let (log, _) = AppendOnlyLog::load(&file);
    let restarted = Storage::recover(None, log, 5).unwrap();
    assert_eq!(value(&restarted, "a"), None);
    assert_eq!(value(&restarted, "b"), Some("2".to_string()));

    // The same, with the record cut short: it counts as not written.
    let file = format!("{}{}", storage.log_text(), "DELETE");
    let (log, intact) = AppendOnlyLog::load(&file);
    assert!(!intact);
    let restarted = Storage::recover(None, log, 5).unwrap();
    assert_eq!(value(&restarted, "a"), Some("1".to_string()));
    assert_eq!(value(&restarted, "b"), Some("2".to_string()));
}

#[test]
fn recovery_after_a_crash_between_snapshot_and_clearing() {
    // The snapshot is saved, the log still holds every record.
    let mut storage = Storage::new();
    storage.apply(1, 1, "SET a 1", true);
    storage.apply(2, 1, "SET b 2", true);
    storage.apply(3, 1, "DELETE a", true);
    let file = storage.log_text();
    let bytes = storage.create_snapshot().unwrap();
    storage.snapshot_saved(true);

    let (log, _) = AppendOnlyLog::load(&file);
    let restarted = Storage::recover(Some(&bytes), log, 5).unwrap();
    assert_eq!(value(&restarted, "a"), None);
    assert_eq!(value(&restarted, "b"), Some("2".to_string()));
}

#[test]
fn recovery_passes_over_unknown_records() {
    let (log, intact) = AppendOnlyLog::load("SET a 1\nINCR a\n\nSET b 2\nDELETE\n");
    assert!(intact);
    let restarted = Storage::recover(None, log, 5).unwrap();
    assert_eq!(value(&restarted, "a"), Some("1".to_string()));
    assert_eq!(value(&restarted, "b"), Some("2".to_string()));
    assert_eq!(restarted.log_records().len(), 5);
}

#[test]
fn recovery_fails_on_a_corrupted_snapshot() {
    let (log, _) = AppendOnlyLog::load("SET a 1\n");
    assert!(matches!(
        Storage::recover(Some(&[9, 9, 9]), log, 5),
        Err(StorageError::Corrupted)
    ));
}

#[test]
fn compaction_boundary() {
    // SET k i for i in 1..=7 with a threshold of 5: after the fifth write a
    // snapshot is taken and the log cleared; two records remain.
    let mut storage = Storage::with_threshold(5);
    let mut snapshot_bytes: Option<Vec<u8>> = None;
    let mut snapshots = 0;
    for i in 1..=7u64 {
        let command = format!("SET k {}", i);
        assert!(matches!(storage.apply(i, 1, &command, true), Response::Success(true)));
        if storage.snapshot_due() {
            assert_eq!(i, 5);
            snapshot_bytes = Some(snapshot(&mut storage));
            snapshots += 1;
        }
    }
    assert_eq!(snapshots, 1);
    assert_eq!(storage.log_text(), "SET k 6\nSET k 7\n");
    assert!(storage.log_text().len() <= 2 * "SET k 7\n".len());

    let (log, intact) = AppendOnlyLog::load(&storage.log_text());
    assert!(intact);
    let bytes = snapshot_bytes.unwrap();
    let restarted = Storage::recover(Some(&bytes), log, 5).unwrap();
    assert_eq!(value(&restarted, "k"), Some("7".to_string()));
    assert_eq!(restarted.last_index(), 5);
}

#[test]
fn compaction_rewrites_the_log_as_one_set_for_each_pair() {
    let mut storage = Storage::with_threshold(3);
    storage.set_in_memory("a".to_string(), "1".to_string(), true);
    storage.set_in_memory("a".to_string(), "2".to_string(), true);
    storage.set_in_memory("b".to_string(), "1".to_string(), true);
    storage.delete_in_memory("b", true);
    storage.set_in_memory("c".to_string(), "3".to_string(), true);

    let mut records = storage.compact_log().unwrap();
    assert_eq!(storage.phase(), Phase::RewritingLog);
    assert!(!storage.set_in_memory("d".to_string(), "4".to_string(), true));
    storage.log_rewritten(true);
    assert_eq!(storage.phase(), Phase::Ready);
    assert_eq!(storage.operation_count(), 0);
    assert_eq!(storage.log_records(), records);
    records.sort();
    assert_eq!(records, vec!["SET a 2", "SET c 3"]);

    let (log, _) = AppendOnlyLog::load(&storage.log_text());
    let restarted = Storage::recover(None, log, 3).unwrap();
    assert_eq!(value(&restarted, "a"), Some("2".to_string()));
    assert_eq!(value(&restarted, "b"), None);
    assert_eq!(value(&restarted, "c"), Some("3".to_string()));
}

#[test]
fn a_failed_compaction_leaves_the_log() {
    let mut storage = Storage::new();
    storage.set_in_memory("a".to_string(), "1".to_string(), true);
    storage.set_in_memory("a".to_string(), "2".to_string(), true);
    storage.compact_log().unwrap();
    storage.log_rewritten(false);
    assert_eq!(storage.phase(), Phase::Ready);
    assert_eq!(storage.operation_count(), 2);
    assert_eq!(storage.log_records(), vec!["SET a 1", "SET a 2"]);
}

#[test]
fn the_log_is_not_compacted_over_a_snapshot() {
    let mut storage = Storage::new();
    storage.set_in_memory("a".to_string(), "1".to_string(), true);
    snapshot(&mut storage);
    storage.delete_in_memory("a", true);
    assert!(storage.compact_log().is_none());
    assert_eq!(storage.phase(), Phase::Ready);
    assert_eq!(storage.log_records(), vec!["DELETE a"]);
}

#[test]
fn replay_log_adds_to_what_the_engine_holds() {
    let mut storage = Storage::new();
    storage.set_in_memory("a".to_string(), "1".to_string(), true);
    let (log, _) = AppendOnlyLog::load("SET b 2\nDELETE a\n");
    assert!(storage.replay_log(log));
    assert_eq!(value(&storage, "a"), None);
    assert_eq!(value(&storage, "b"), Some("2".to_string()));
    assert_eq!(storage.log_records(), vec!["SET a 1", "SET b 2", "DELETE a"]);
    assert_eq!(storage.operation_count(), 1);
}
