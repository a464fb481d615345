use ferrium::apply::WriteCommand;
use ferrium::config::{raft_port, split_peer};
use ferrium::error::Error;
use ferrium::net::client::{
    error_reply, members_reply, not_leader_frame, read_reply, route, status_reply, write_reply, Route, WriteKind,
};
use ferrium::protocol::command::Command;
use ferrium::protocol::resp::Frame;
use ferrium::raft::node::{Committed, RaftConfig, RaftNode};
use ferrium::server::{ClusterStatus, Driver, ProposeOutcome, Waiters};
use ferrium::storage::MemoryEngine;

fn cfg(seed: u64) -> RaftConfig {
    RaftConfig {
        seed: Some(seed),
        ..Default::default()
    }
}

#[test]
fn peer_parses_id_and_addr() {
    let (id, addr) = split_peer("node2=127.0.0.1:16380").unwrap();
    assert_eq!(id, "node2");
    assert_eq!(addr, "127.0.0.1:16380");
    assert!(addr.ends_with(":16380"));
}

#[test]
fn peer_rejects_missing_separator() {
    assert!(split_peer("garbage").is_err());
    assert_eq!(
        split_peer("garbage").unwrap_err(),
        "expected `id=host:port`, got `garbage`"
    );
}

#[test]
fn raft_addr_offsets_client_port_by_default() {
    assert_eq!(raft_port(6379), 16379);
}

#[test]
fn peer_splits_at_the_first_separator_and_port_offset_wraps() {
    assert_eq!(
        split_peer("a=b=c").unwrap(),
        ("a".to_string(), "b=c".to_string())
    );
    assert_eq!(split_peer("=x").unwrap(), (String::new(), "x".to_string()));
    assert_eq!(raft_port(60000), 4464);
}

#[test]
fn waiters_are_taken_by_index_in_order() {
    let mut w: Waiters<&str> = Waiters::new();
    assert!(w.is_empty());
    w.add(1, "a");
    w.add(2, "b");
    w.add(1, "c");
    assert_eq!(w.take(1), vec!["a", "c"]);
    assert_eq!(w.take(1), Vec::<&str>::new());
    w.add(3, "d");
    // Draining walks the indices in the hash map's order.
    let mut rest = w.drain();
    rest.sort();
    assert_eq!(rest, vec!["b", "d"]);
    assert!(w.is_empty());
}

#[test]
fn single_node_driver_commits_and_answers_the_waiter() {
    let mut node = RaftNode::new("n1", vec![], cfg(1));
    for _ in 0..cfg(1).election_timeout_max {
        node.tick();
    }
    let mut driver: Driver<u32> = Driver::new(node, 1);
    let store = MemoryEngine::new();
    let first = driver.process_ready(&store);
    assert!(first.metrics.won_election);
    assert_eq!(first.metrics.is_leader, 1);
    assert!(driver.propose(b"cmd".to_vec(), 7).is_none());
    let effects = driver.process_ready(&store);
    assert_eq!(effects.resolved, vec![7]);
    assert!(effects.failed.is_empty());
    assert!(!effects.metrics.won_election);
    assert_eq!(effects.metrics.commit_index, 1);
    assert!(matches!(effects.committed.as_slice(), [Committed::Command { index: 1, .. }]));
    let status = driver.status();
    assert_eq!(status.role, "leader");
    assert_eq!(status.id, "n1");
    assert_eq!(status.leader.as_deref(), Some("n1"));
    assert_eq!(status.cluster_size, 1);
}

#[test]
fn follower_driver_hands_the_waiter_back() {
    let node = RaftNode::new("n1", vec!["n2".into()], cfg(2));
    let mut driver: Driver<u32> = Driver::new(node, 2);
    let back = driver.propose(b"cmd".to_vec(), 9);
    assert_eq!(back, Some((9, None)));
    let status = driver.status();
    assert_eq!(status.role, "follower");
    assert_eq!(status.term, 0);
}

#[test]
fn routes_and_replies() {
    assert!(matches!(route(Command::Ping(None)), Route::Reply(Frame::Simple(s)) if s == "PONG"));
    assert!(matches!(route(Command::Ping(Some(b"x".to_vec()))), Route::Reply(Frame::Bulk(b)) if b == b"x".to_vec()));
    assert!(matches!(route(Command::Command), Route::Reply(Frame::Array(v)) if v.is_empty()));
    assert!(matches!(route(Command::Get { key: "k".into() }), Route::Get(k) if k == "k"));
    assert!(matches!(
        route(Command::Del { keys: vec!["a".into()] }),
        Route::Write(WriteCommand::Del { .. }, WriteKind::Del)
    ));
    assert!(matches!(route(Command::ClusterStatus), Route::Status));
    assert!(matches!(route(Command::ClusterMembers), Route::Members));

    assert_eq!(read_reply(Some(b"v".to_vec())), Frame::Bulk(b"v".to_vec()));
    assert_eq!(read_reply(None), Frame::Null);
    assert_eq!(write_reply(WriteKind::SetKey, ProposeOutcome::Committed), Frame::Simple("OK".into()));
    assert_eq!(write_reply(WriteKind::Del, ProposeOutcome::Committed), Frame::Integer(1));
    assert_eq!(
        write_reply(WriteKind::SetKey, ProposeOutcome::NotLeader(Some("10.0.0.2:6379".into()))),
        Frame::Error("ERR MOVED 10.0.0.2:6379".into())
    );
    assert_eq!(
        not_leader_frame(None),
        Frame::Error("ERR CLUSTERDOWN no known leader".into())
    );
    assert_eq!(
        error_reply(&Error::UnknownCommand("FOO".into())),
        Frame::Error("ERR unknown command 'FOO'".into())
    );
}

#[test]
fn status_and_members_replies() {
    let status = ClusterStatus {
        id: "n1".into(),
        role: "candidate",
        term: 3,
        leader: None,
        commit_index: 5,
        cluster_size: 3,
    };
    assert_eq!(
        status_reply(Some(status)),
        Frame::Bulk(b"id=n1 role=candidate term=3 leader=none commit=5 size=3".to_vec())
    );
    assert_eq!(status_reply(None), Frame::Error("ERR driver unavailable".into()));
    let members = vec![
        ("n1".to_string(), "127.0.0.1:6379".to_string()),
        ("n2".to_string(), "127.0.0.1:6380".to_string()),
    ];
    assert_eq!(
        members_reply(&members),
        Frame::Array(vec![
            Frame::Bulk(b"n1@127.0.0.1:6379".to_vec()),
            Frame::Bulk(b"n2@127.0.0.1:6380".to_vec()),
        ])
    );
}
