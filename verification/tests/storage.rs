use ferrium::apply::WriteCommand;
use ferrium::storage::{MemoryEngine, StorageEngine};

#[test]
fn set_get_del_cycle() {
    let mut engine = MemoryEngine::new();
    assert!(engine.is_empty());
    engine.set("k".into(), b"v".to_vec());
    assert_eq!(engine.get("k"), Some(b"v".to_vec()));
    assert_eq!(engine.len(), 1);
    assert!(engine.del("k"));
    assert!(!engine.del("k"));
    assert!(engine.get("k").is_none());
}

#[test]
fn snapshot_and_restore_roundtrip() {
    let mut engine = MemoryEngine::new();
    engine.set("a".into(), b"1".to_vec());
    engine.set("b".into(), b"2".to_vec());
    let snap = engine.snapshot();

    let mut restored = MemoryEngine::new();
    restored.restore(snap);
    assert_eq!(restored.len(), 2);
    assert_eq!(restored.get("a"), Some(b"1".to_vec()));
}

#[test]
fn apply_mutates_engine() {
    let mut engine = MemoryEngine::new();
    WriteCommand::SetKey {
        key: "k".into(),
        value: b"v".to_vec(),
    }
    .apply(&mut engine);
    assert_eq!(engine.get("k"), Some(b"v".to_vec()));

    let deleted = WriteCommand::Del {
        keys: vec!["k".into(), "missing".into()],
    }
    .apply(&mut engine);
    assert_eq!(deleted, 1);
}

#[test]
fn set_overwrites_and_keeps_one_key() {
    let mut engine = MemoryEngine::new();
    engine.set("k".into(), b"1".to_vec());
    engine.set("k".into(), b"2".to_vec());
    assert_eq!(engine.len(), 1);
    assert_eq!(engine.get("k"), Some(b"2".to_vec()));
    assert_eq!(engine.snapshot(), vec![("k".to_string(), b"2".to_vec())]);
}

#[test]
fn restore_replaces_everything_and_later_pairs_win() {
    let mut engine = MemoryEngine::new();
    engine.set("old".into(), b"x".to_vec());
    engine.restore(vec![
        ("a".into(), b"1".to_vec()),
        ("b".into(), b"2".to_vec()),
        ("a".into(), b"3".to_vec()),
    ]);
    assert_eq!(engine.len(), 2);
    assert_eq!(engine.get("a"), Some(b"3".to_vec()));
    assert_eq!(engine.get("b"), Some(b"2".to_vec()));
    assert!(engine.get("old").is_none());
}

#[test]
fn deleting_a_key_twice_in_one_command_counts_once() {
    let mut engine = MemoryEngine::new();
    engine.set("a".into(), b"1".to_vec());
    engine.set("b".into(), b"2".to_vec());
    let n = WriteCommand::Del {
        keys: vec!["a".into(), "a".into(), "b".into()],
    }
    .apply(&mut engine);
    assert_eq!(n, 2);
    assert!(engine.is_empty());
    let one = WriteCommand::SetKey {
        key: "c".into(),
        value: vec![],
    }
    .apply(&mut engine);
    assert_eq!(one, 1);
    assert_eq!(engine.get("c"), Some(vec![]));
}

#[test]
fn identical_commands_give_identical_stores() {
    let commands = vec![
        WriteCommand::SetKey { key: "x".into(), value: b"1".to_vec() },
        WriteCommand::SetKey { key: "y".into(), value: b"2".to_vec() },
        WriteCommand::Del { keys: vec!["x".into()] },
        WriteCommand::SetKey { key: "y".into(), value: b"3".to_vec() },
    ];
    let mut a = MemoryEngine::new();
    let mut b = MemoryEngine::new();
    for c in &commands {
        c.apply(&mut a);
    }
    for c in &commands {
        c.apply(&mut b);
    }
    assert_eq!(a.snapshot(), b.snapshot());
    assert_eq!(a.get("y"), Some(b"3".to_vec()));
    assert!(a.get("x").is_none());
}
