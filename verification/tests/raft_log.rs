use ferrium::raft::log::{LogEntry, RaftLog};

fn entry(term: u64) -> LogEntry {
    LogEntry {
        term,
        command: vec![],
    }
}

#[test]
fn append_and_index_math() {
    let mut log = RaftLog::new();
    assert_eq!(log.last_index(), 0);
    log.append(vec![entry(1), entry(1), entry(2)]);
    assert_eq!(log.last_index(), 3);
    assert_eq!(log.last_term(), 2);
    assert_eq!(log.term_at(2), Some(1));
}

#[test]
fn matches_respects_term() {
    let mut log = RaftLog::new();
    log.append(vec![entry(1), entry(3)]);
    assert!(log.matches(0, 0));
    assert!(log.matches(2, 3));
    assert!(!log.matches(2, 1));
}

#[test]
fn splice_truncates_conflicts() {
    let mut log = RaftLog::new();
    log.append(vec![entry(1), entry(1), entry(2)]);
    // Leader says index 2 onward should be term 1 then term 4.
    log.splice(1, vec![entry(1), entry(4)]);
    assert_eq!(log.last_index(), 3);
    assert_eq!(log.term_at(3), Some(4));
}

#[test]
fn splice_is_idempotent_for_matching_entries() {
    let mut log = RaftLog::new();
    log.append(vec![entry(1), entry(2)]);
    log.splice(0, vec![entry(1), entry(2)]);
    assert_eq!(log.last_index(), 2);
}

#[test]
fn compaction_preserves_index_math() {
    let mut log = RaftLog::new();
    log.append(vec![entry(1), entry(1), entry(2), entry(2)]);
    log.compact(2);
    assert_eq!(log.first_index(), 3);
    assert_eq!(log.last_index(), 4);
    assert_eq!(log.term_at(2), Some(1));
    assert_eq!(log.term_at(4), Some(2));
    assert!(log.get(1).is_none());
}

#[test]
fn splice_keeps_entries_beyond_a_matching_prefix() {
    let mut log = RaftLog::new();
    log.append(vec![entry(1), entry(1), entry(2), entry(3)]);
    // A stale, shorter AppendEntries that agrees with the log changes nothing.
    log.splice(0, vec![entry(1), entry(1)]);
    assert_eq!(log.last_index(), 4);
    assert_eq!(log.term_at(4), Some(3));
}

#[test]
fn splice_twice_equals_splice_once() {
    let mut once = RaftLog::new();
    once.append(vec![entry(1), entry(2), entry(2)]);
    once.splice(1, vec![entry(3), entry(3)]);
    let mut twice = RaftLog::new();
    twice.append(vec![entry(1), entry(2), entry(2)]);
    twice.splice(1, vec![entry(3), entry(3)]);
    twice.splice(1, vec![entry(3), entry(3)]);
    assert_eq!(once.last_index(), twice.last_index());
    for i in 0..=4 {
        assert_eq!(once.term_at(i), twice.term_at(i));
    }
}

#[test]
fn entries_from_and_get_read_back_appended_entries() {
    let mut log = RaftLog::new();
    let last = log.append(vec![
        LogEntry { term: 1, command: b"a".to_vec() },
        LogEntry { term: 2, command: b"b".to_vec() },
    ]);
    assert_eq!(last, 2);
    assert_eq!(log.get(2).map(|e| e.command.clone()), Some(b"b".to_vec()));
    let tail = log.entries_from(2);
    assert_eq!(tail.len(), 1);
    assert_eq!(tail[0].term, 2);
    assert!(log.get(0).is_none());
    assert!(log.get(3).is_none());
}

#[test]
fn install_snapshot_resets_the_log() {
    let mut log = RaftLog::new();
    log.append(vec![entry(1), entry(1)]);
    log.install_snapshot(10, 4);
    assert_eq!(log.snapshot_index(), 10);
    assert_eq!(log.first_index(), 11);
    assert_eq!(log.last_index(), 10);
    assert_eq!(log.last_term(), 4);
    assert_eq!(log.term_at(10), Some(4));
    assert!(log.matches(10, 4));
    // The snapshot point matches whatever term is asked.
    assert!(log.matches(10, 3));
}

#[test]
fn compaction_keeps_matching_at_the_boundary() {
    let mut log = RaftLog::new();
    log.append(vec![entry(1), entry(2), entry(3)]);
    log.compact(2);
    assert_eq!(log.snapshot_index(), 2);
    assert!(log.matches(2, 2));
    assert_eq!(log.term_at(1), None);
    assert_eq!(log.term_at(3), Some(3));
}
