use ferrium::raft::log::LogEntry;
use ferrium::raft::message::{AppendEntries, Message, RequestVote};
use ferrium::raft::node::{Committed, RaftConfig, RaftNode};
use ferrium::raft::state::{LeaderProgress, Role, VoteTally};

fn cfg(seed: u64) -> RaftConfig {
    RaftConfig {
        seed: Some(seed),
        ..Default::default()
    }
}

#[test]
fn single_node_elects_itself_and_commits() {
    let mut node = RaftNode::new("n1", vec![], cfg(1));
    // Tick past the election timeout.
    for _ in 0..cfg(1).election_timeout_max {
        node.tick();
    }
    assert!(node.is_leader());

    let idx = node.propose(b"SET k v".to_vec()).unwrap();
    assert_eq!(idx, 1);
    let ready = node.take_ready();
    assert!(matches!(
        ready.committed.as_slice(),
        [Committed::Command { index: 1, .. }]
    ));
}

#[test]
fn follower_grants_vote_once_per_term() {
    let mut node = RaftNode::new("n1", vec!["n2".into(), "n3".into()], cfg(2));
    node.step(
        "n2".into(),
        Message::RequestVote(RequestVote {
            term: 1,
            candidate_id: "n2".into(),
            last_log_index: 0,
            last_log_term: 0,
        }),
    );
    let ready = node.take_ready();
    let granted = matches!(
        ready.messages.first().map(|e| &e.message),
        Some(Message::RequestVoteReply(r)) if r.vote_granted
    );
    assert!(granted);

    // A different candidate in the same term must be refused.
    node.step(
        "n3".into(),
        Message::RequestVote(RequestVote {
            term: 1,
            candidate_id: "n3".into(),
            last_log_index: 0,
            last_log_term: 0,
        }),
    );
    let ready = node.take_ready();
    let refused = matches!(
        ready.messages.first().map(|e| &e.message),
        Some(Message::RequestVoteReply(r)) if !r.vote_granted
    );
    assert!(refused);
}

#[test]
fn higher_term_forces_step_down() {
    let mut node = RaftNode::new("n1", vec!["n2".into()], cfg(3));
    for _ in 0..cfg(3).election_timeout_max {
        node.tick();
    }
    let term_before = node.current_term();
    node.step(
        "n2".into(),
        Message::AppendEntries(AppendEntries {
            term: term_before + 5,
            leader_id: "n2".into(),
            prev_log_index: 0,
            prev_log_term: 0,
            entries: vec![],
            leader_commit: 0,
        }),
    );
    assert_eq!(node.role(), Role::Follower);
    assert_eq!(node.current_term(), term_before + 5);
    assert_eq!(node.leader_id(), Some("n2"));
}

#[test]
fn non_leader_refuses_proposals_and_names_the_leader() {
    let mut node = RaftNode::new("n1", vec!["n2".into()], cfg(4));
    let err = node.propose(b"x".to_vec()).unwrap_err();
    assert_eq!(err.leader, None);
    node.step(
        "n2".into(),
        Message::AppendEntries(AppendEntries {
            term: 1,
            leader_id: "n2".into(),
            prev_log_index: 0,
            prev_log_term: 0,
            entries: vec![],
            leader_commit: 0,
        }),
    );
    let err = node.propose(b"x".to_vec()).unwrap_err();
    assert_eq!(err.leader.as_deref(), Some("n2"));
    assert_eq!(node.last_log_index(), 0);
}

#[test]
fn candidate_asks_every_peer_for_a_vote() {
    let mut node = RaftNode::new("n1", vec!["n2".into(), "n3".into()], cfg(5));
    for _ in 0..cfg(5).election_timeout_max {
        node.tick();
    }
    assert_eq!(node.role(), Role::Candidate);
    assert_eq!(node.current_term(), 1);
    let ready = node.take_ready();
    let mut asked: Vec<String> = ready
        .messages
        .iter()
        .filter(|e| matches!(&e.message, Message::RequestVote(r) if r.term == 1 && r.candidate_id == "n1"))
        .map(|e| e.to.clone())
        .collect();
    asked.sort();
    assert_eq!(asked, vec!["n2".to_string(), "n3".to_string()]);
}

#[test]
fn stale_messages_do_not_lower_the_term() {
    let mut node = RaftNode::new("n1", vec!["n2".into()], cfg(6));
    node.step(
        "n2".into(),
        Message::AppendEntries(AppendEntries {
            term: 4,
            leader_id: "n2".into(),
            prev_log_index: 0,
            prev_log_term: 0,
            entries: vec![],
            leader_commit: 0,
        }),
    );
    node.step(
        "n2".into(),
        Message::RequestVote(RequestVote {
            term: 2,
            candidate_id: "n2".into(),
            last_log_index: 0,
            last_log_term: 0,
        }),
    );
    assert_eq!(node.current_term(), 4);
}

#[test]
fn accepts_rejects_indices_that_would_overflow() {
    let node = RaftNode::new("n1", vec!["n2".into()], cfg(7));
    let fine = Message::AppendEntries(AppendEntries {
        term: 1,
        leader_id: "n2".into(),
        prev_log_index: 5,
        prev_log_term: 1,
        entries: vec![],
        leader_commit: 0,
    });
    let huge = Message::AppendEntries(AppendEntries {
        term: 1,
        leader_id: "n2".into(),
        prev_log_index: u64::MAX,
        prev_log_term: 1,
        entries: vec![],
        leader_commit: 0,
    });
    assert!(node.accepts(&fine));
    assert!(!node.accepts(&huge));
}

#[test]
fn vote_tally_counts_distinct_voters() {
    let mut votes = VoteTally::new();
    assert_eq!(votes.record("a".into()), 1);
    assert_eq!(votes.record("a".into()), 1);
    assert_eq!(votes.record("b".into()), 2);
    assert_eq!(votes.count(), 2);
    votes.clear();
    assert_eq!(votes.count(), 0);
}

#[test]
fn leader_progress_starts_past_the_log() {
    let mut p = LeaderProgress::new();
    p.reset(&["a".to_string(), "b".to_string()], 7);
    assert_eq!(p.next_index("a"), 8);
    p.set_next_index("a", 3);
    assert_eq!(p.next_index("a"), 3);
    p.set_match_index("b", 7);
    assert_eq!(p.match_index.get("b"), Some(7));
    assert_eq!(p.match_index.get("a"), Some(0));
}

fn append(term: u64, leader: &str, prev: u64, entries: Vec<LogEntry>, commit: u64) -> Message {
    Message::AppendEntries(AppendEntries {
        term,
        leader_id: leader.into(),
        prev_log_index: prev,
        prev_log_term: if prev == 0 { 0 } else { 1 },
        entries,
        leader_commit: commit,
    })
}

fn vote_request(term: u64, candidate: &str) -> Message {
    Message::RequestVote(RequestVote {
        term,
        candidate_id: candidate.into(),
        last_log_index: 0,
        last_log_term: 0,
    })
}

#[test]
fn vote_is_kept_after_hearing_from_the_leader() {
    let mut node = RaftNode::new("n1", vec!["n2".into(), "n3".into()], cfg(4));
    node.step("n2".into(), vote_request(1, "n2"));
    node.take_ready();
    // The elected leader's heartbeat in the same term does not free the vote.
    node.step("n2".into(), append(1, "n2", 0, vec![], 0));
    node.take_ready();
    node.step("n3".into(), vote_request(1, "n3"));
    let ready = node.take_ready();
    let refused = matches!(
        ready.messages.first().map(|e| &e.message),
        Some(Message::RequestVoteReply(r)) if !r.vote_granted
    );
    assert!(refused);
}

#[test]
fn append_reply_reports_the_last_stored_index() {
    let mut node = RaftNode::new("n1", vec!["n2".into()], cfg(5));
    let e = |term: u64| LogEntry { term, command: b"x".to_vec() };
    node.step("n2".into(), append(1, "n2", 0, vec![e(1), e(1), e(1)], 0));
    node.take_ready();
    assert_eq!(node.last_log_index(), 3);
    // A heartbeat that matches at index 1 keeps the entries beyond it; the
    // reply reports the highest index now stored, and the commit index
    // follows the leader's, capped by that index.
    node.step("n2".into(), append(1, "n2", 1, vec![], 3));
    let ready = node.take_ready();
    let acked = matches!(
        ready.messages.first().map(|e| &e.message),
        Some(Message::AppendEntriesReply(r)) if r.success && r.match_index == 3
    );
    assert!(acked);
    assert_eq!(node.commit_index(), 3);
    assert_eq!(node.last_log_index(), 3);
}

#[test]
fn same_seed_gives_the_same_timeouts() {
    let peers = || vec!["n2".to_string(), "n3".to_string()];
    let mut a = RaftNode::new("n1", peers(), cfg(11));
    let mut b = RaftNode::new("n1", peers(), cfg(11));
    for _ in 0..60 {
        a.tick();
        b.tick();
        assert_eq!(a.role(), b.role());
        assert_eq!(a.current_term(), b.current_term());
        let ra = a.take_ready();
        let rb = b.take_ready();
        assert_eq!(ra.messages.len(), rb.messages.len());
    }
}
