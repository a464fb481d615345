//! The mathematical model of a Raft node: its state as plain values, and
//! every transition (tick, proposal, inbound message, draining outputs) as a
//! function from state to state. [`super::node::RaftNode`] is proved to follow
//! these functions exactly, and the laws of the protocol are proved over them.

use vstd::prelude::*;

use super::log::{EntryView, LogView};
use super::message::MessageView;
use super::node::RaftConfig;
use super::state::{uniform_map, Role};

verus! {

/// An outbound message and its addressee.
pub struct EnvelopeView {
    pub to: Seq<char>,
    pub message: MessageView,
}

/// Something committed that the state machine must apply.
pub enum CommittedView {
    Command { index: u64, command: Seq<u8> },
    Snapshot(Seq<(Seq<char>, Seq<u8>)>),
}

/// The full state of a node, as values.
pub struct NodeView {
    pub id: Seq<char>,
    pub peers: Seq<Seq<char>>,
    pub config: RaftConfig,
    pub role: Role,
    pub leader_id: Option<Seq<char>>,
    pub current_term: u64,
    pub voted_for: Option<Seq<char>>,
    pub log: LogView,
    pub commit_index: u64,
    pub last_applied: u64,
    pub next_index: Map<Seq<char>, u64>,
    pub match_index: Map<Seq<char>, u64>,
    pub votes: Set<Seq<char>>,
    pub election_elapsed: u64,
    pub heartbeat_elapsed: u64,
    pub election_timeout: u64,
    pub outgoing: Seq<EnvelopeView>,
    pub committed: Seq<CommittedView>,
}

/// How many of `peers` are known (by `match_index`) to hold index `n`.
pub open spec fn count_holding(peers: Seq<Seq<char>>, match_index: Map<Seq<char>, u64>, n: int) -> int
    decreases peers.len(),
{
    if peers.len() == 0 {
        0
    } else {
        count_holding(peers.drop_last(), match_index, n) + (if match_of(match_index, peers.last()) >= n {
            1int
        } else {
            0int
        })
    }
}

/// The match index recorded for `peer` (0 when unknown).
pub open spec fn match_of(match_index: Map<Seq<char>, u64>, peer: Seq<char>) -> u64 {
    if match_index.contains_key(peer) {
        match_index[peer]
    } else {
        0
    }
}

/// The command entries of `log` with index in `(from, to]`, in order, as
/// committed outputs; entries with an empty command (or not buffered) are
/// skipped.
pub open spec fn newly_committed(log: LogView, from: int, to: int) -> Seq<CommittedView>
    decreases to - from,
{
    if to <= from {
        Seq::empty()
    } else {
        newly_committed(log, from, to - 1) + match log.entry(to) {
            Some(e) => if e.command.len() > 0 {
                seq![CommittedView::Command { index: to as u64, command: e.command }]
            } else {
                Seq::empty()
            },
            None => Seq::empty(),
        }
    }
}

impl NodeView {
    /// The node's invariant: indices stay below `u64::MAX`, the timers are
    /// within their bounds, and the cluster size fits a `usize`.
    pub open spec fn inv(self) -> bool {
        &&& self.log.last_index() < u64::MAX
        &&& self.config.election_timeout_min <= self.election_timeout
            <= self.config.election_timeout_max
        &&& (self.election_elapsed == 0 || self.election_elapsed < self.election_timeout)
        &&& (self.heartbeat_elapsed == 0 || self.heartbeat_elapsed < self.config.heartbeat_ticks)
        &&& self.peers.len() + 1 < usize::MAX
    }

    /// Votes (or replicas) needed: a strict majority of the cluster.
    pub open spec fn majority(self) -> int {
        ((self.peers.len() + 1) / 2 + 1) as int
    }

    pub open spec fn with_timeout(self, timeout: u64) -> NodeView {
        NodeView { election_timeout: timeout, ..self }
    }

    /// Queue `message` for `to`.
    pub open spec fn send(self, to: Seq<char>, message: MessageView) -> NodeView {
        NodeView { outgoing: self.outgoing.push(EnvelopeView { to, message }), ..self }
    }

    /// Follow `leader` in `term`; the election timer restarts. A vote is
    /// forgotten only when the term rises.
    pub open spec fn become_follower(self, term: u64, leader: Option<Seq<char>>) -> NodeView {
        NodeView {
            current_term: term,
            role: Role::Follower,
            voted_for: if term > self.current_term {
                None
            } else {
                self.voted_for
            },
            leader_id: leader,
            election_elapsed: 0,
            ..self
        }
    }

    /// The next index to send to `peer` (1 when unknown).
    pub open spec fn next_of(self, peer: Seq<char>) -> u64 {
        if self.next_index.contains_key(peer) {
            self.next_index[peer]
        } else {
            1
        }
    }

    /// What the leader sends `peer` to bring it up to date: a snapshot when
    /// the entries it needs were compacted, else the entries from its next
    /// index on.
    pub open spec fn append_message(self, peer: Seq<char>) -> MessageView {
        let next = self.next_of(peer);
        if next <= self.log.snapshot_index {
            MessageView::InstallSnapshot {
                term: self.current_term,
                leader_id: self.id,
                last_included_index: self.log.snapshot_index,
                last_included_term: self.log.last_term(),
                data: Seq::empty(),
            }
        } else {
            MessageView::AppendEntries {
                term: self.current_term,
                leader_id: self.id,
                prev_log_index: (next - 1) as u64,
                prev_log_term: match self.log.term_at(next - 1) {
                    Some(t) => t,
                    None => 0,
                },
                entries: self.log.entries_from(next as int),
                leader_commit: self.commit_index,
            }
        }
    }

    /// One replication message per peer, in peer order.
    pub open spec fn append_envelopes(self) -> Seq<EnvelopeView> {
        Seq::new(
            self.peers.len(),
            |i: int| EnvelopeView { to: self.peers[i], message: self.append_message(self.peers[i]) },
        )
    }

    pub open spec fn broadcast_append(self) -> NodeView {
        NodeView { outgoing: self.outgoing + self.append_envelopes(), ..self }
    }

    /// Nodes holding index `n`: the leader itself and the peers whose match
    /// index reached it.
    pub open spec fn replicas(self, n: int) -> int {
        1 + count_holding(self.peers, self.match_index, n)
    }

    /// Index `n` may be committed: it is from the current term and a
    /// majority holds it (§5.3/§5.4).
    pub open spec fn can_commit(self, n: int) -> bool {
        &&& self.log.term_at(n) == Some(self.current_term)
        &&& self.replicas(n) >= self.majority()
    }

    /// The highest committable index in `(commit_index, n]`, or the current
    /// commit index when there is none.
    pub open spec fn commit_search(self, n: int) -> u64
        decreases n - self.commit_index,
    {
        if n <= self.commit_index {
            self.commit_index
        } else if self.can_commit(n) {
            n as u64
        } else {
            self.commit_search(n - 1)
        }
    }

    pub open spec fn advance_commit(self) -> NodeView {
        if self.role != Role::Leader {
            self
        } else {
            NodeView { commit_index: self.commit_search(self.log.last_index()), ..self }
        }
    }

    pub open spec fn become_leader(self) -> NodeView {
        let s = NodeView {
            role: Role::Leader,
            leader_id: Some(self.id),
            next_index: uniform_map(self.peers, (self.log.last_index() + 1) as u64),
            match_index: uniform_map(self.peers, 0),
            heartbeat_elapsed: 0,
            ..self
        };
        s.broadcast_append().advance_commit()
    }

    pub open spec fn request_vote_message(self) -> MessageView {
        MessageView::RequestVote {
            term: self.current_term,
            candidate_id: self.id,
            last_log_index: self.log.last_index() as u64,
            last_log_term: self.log.last_term(),
        }
    }

    /// Start an election: next term, vote for itself, solicit the peers
    /// (a single-node cluster wins at once).
    pub open spec fn become_candidate(self) -> NodeView {
        let s = NodeView {
            role: Role::Candidate,
            current_term: (self.current_term + 1) as u64,
            voted_for: Some(self.id),
            leader_id: None,
            votes: Set::empty().insert(self.id),
            election_elapsed: 0,
            ..self
        };
        if 1 >= s.majority() {
            s.become_leader()
        } else {
            NodeView {
                outgoing: s.outgoing + Seq::new(
                    s.peers.len(),
                    |i: int| EnvelopeView { to: s.peers[i], message: s.request_vote_message() },
                ),
                ..s
            }
        }
    }

    /// One tick of logical time: a leader heartbeats, anyone else counts
    /// toward the election timeout.
    pub open spec fn tick(self) -> NodeView {
        if self.role == Role::Leader {
            let hb = self.heartbeat_elapsed + 1;
            if hb >= self.config.heartbeat_ticks {
                NodeView { heartbeat_elapsed: 0, ..self }.broadcast_append()
            } else {
                NodeView { heartbeat_elapsed: hb as u64, ..self }
            }
        } else {
            let ee = self.election_elapsed + 1;
            if ee >= self.election_timeout {
                NodeView { election_elapsed: ee as u64, ..self }.become_candidate()
            } else {
                NodeView { election_elapsed: ee as u64, ..self }
            }
        }
    }

    /// Whether a tick starts an election (and so redraws the timeout).
    pub open spec fn tick_resets_timer(self) -> bool {
        self.role != Role::Leader && self.election_elapsed + 1 >= self.election_timeout
    }

    /// Leader only: append the command in the current term, replicate, and
    /// commit if that is already possible.
    pub open spec fn propose(self, command: Seq<u8>) -> NodeView {
        if self.role != Role::Leader {
            self
        } else {
            NodeView {
                log: self.log.appended(seq![EntryView { term: self.current_term, command }]),
                ..self
            }.broadcast_append().advance_commit()
        }
    }

    /// §5.4.1 — a candidate's log must be at least as up-to-date as ours.
    pub open spec fn candidate_is_up_to_date(self, last_index: u64, last_term: u64) -> bool {
        last_term > self.log.last_term() || (last_term == self.log.last_term() && last_index
            >= self.log.last_index())
    }

    /// Whether a vote request is granted.
    pub open spec fn grants_vote(self, term: u64, candidate: Seq<char>, last_index: u64, last_term: u64) -> bool {
        &&& term >= self.current_term
        &&& (self.voted_for.is_none() || self.voted_for == Some(candidate))
        &&& self.candidate_is_up_to_date(last_index, last_term)
    }

    pub open spec fn handle_request_vote(self, term: u64, candidate: Seq<char>, last_index: u64, last_term: u64) -> NodeView {
        let granted = self.grants_vote(term, candidate, last_index, last_term);
        let s = if granted {
            NodeView { voted_for: Some(candidate), election_elapsed: 0, ..self }
        } else {
            self
        };
        s.send(
            candidate,
            MessageView::RequestVoteReply { term: s.current_term, voter_id: s.id, vote_granted: granted },
        )
    }

    pub open spec fn handle_request_vote_reply(self, term: u64, voter: Seq<char>, granted: bool) -> NodeView {
        if self.role != Role::Candidate || term != self.current_term {
            self
        } else if granted {
            let s = NodeView { votes: self.votes.insert(voter), ..self };
            if s.votes.len() >= s.majority() {
                s.become_leader()
            } else {
                s
            }
        } else {
            self
        }
    }

    /// Cheap divergence hint: the start of the conflicting region.
    pub open spec fn conflict_hint(self, prev_index: u64) -> u64 {
        if prev_index > self.log.last_index() {
            (self.log.last_index() + 1) as u64
        } else if prev_index >= self.log.first_index() {
            prev_index
        } else {
            self.log.first_index() as u64
        }
    }

    pub open spec fn reject_append(self, leader: Seq<char>, conflict_index: u64) -> NodeView {
        self.send(
            leader,
            MessageView::AppendEntriesReply {
                term: self.current_term,
                follower_id: self.id,
                success: false,
                match_index: 0,
                conflict_index,
            },
        )
    }

    pub open spec fn handle_append_entries(
        self,
        term: u64,
        leader: Seq<char>,
        prev_index: u64,
        prev_term: u64,
        entries: Seq<EntryView>,
        leader_commit: u64,
    ) -> NodeView {
        if term < self.current_term {
            self.reject_append(leader, 0)
        } else {
            let s = self.become_follower(term, Some(leader));
            if !s.log.matches(prev_index as int, prev_term) {
                s.reject_append(leader, s.conflict_hint(prev_index))
            } else {
                let log = s.log.merged(prev_index + 1, entries);
                let last = log.last_index();
                let commit = if leader_commit > s.commit_index {
                    if leader_commit <= last {
                        leader_commit
                    } else {
                        last as u64
                    }
                } else {
                    s.commit_index
                };
                NodeView { log, commit_index: commit, ..s }.send(
                    leader,
                    MessageView::AppendEntriesReply {
                        term: s.current_term,
                        follower_id: s.id,
                        success: true,
                        match_index: last as u64,
                        conflict_index: 0,
                    },
                )
            }
        }
    }

    pub open spec fn handle_append_entries_reply(
        self,
        from: Seq<char>,
        term: u64,
        success: bool,
        match_index: u64,
        conflict_index: u64,
    ) -> NodeView {
        if self.role != Role::Leader || term != self.current_term {
            self
        } else if success {
            NodeView {
                match_index: self.match_index.insert(from, match_index),
                next_index: self.next_index.insert(from, (match_index + 1) as u64),
                ..self
            }.advance_commit()
        } else {
            let next = if conflict_index >= 1 {
                conflict_index
            } else {
                1
            };
            let s = NodeView { next_index: self.next_index.insert(from, next), ..self };
            s.send(from, s.append_message(from))
        }
    }

    pub open spec fn handle_install_snapshot(
        self,
        term: u64,
        leader: Seq<char>,
        last_included_index: u64,
        last_included_term: u64,
        data: Seq<(Seq<char>, Seq<u8>)>,
    ) -> NodeView {
        if term < self.current_term {
            self
        } else {
            let s = self.become_follower(term, Some(leader));
            NodeView {
                log: s.log.with_snapshot(last_included_index, last_included_term),
                commit_index: last_included_index,
                last_applied: last_included_index,
                committed: s.committed.push(CommittedView::Snapshot(data)),
                ..s
            }.send(leader, MessageView::InstallSnapshotReply { term: s.current_term, follower_id: s.id })
        }
    }

    pub open spec fn handle_install_snapshot_reply(self, from: Seq<char>, term: u64) -> NodeView {
        if self.role != Role::Leader || term != self.current_term {
            self
        } else {
            let index = self.log.snapshot_index;
            NodeView {
                match_index: self.match_index.insert(from, index),
                next_index: self.next_index.insert(from, (index + 1) as u64),
                ..self
            }
        }
    }

    /// The universal rule: a higher term in any message makes us a follower
    /// of no known leader in that term.
    pub open spec fn observe_term(self, term: u64) -> NodeView {
        if term > self.current_term {
            self.become_follower(term, None)
        } else {
            self
        }
    }

    /// Handle an inbound message from `from`.
    pub open spec fn step(self, from: Seq<char>, m: MessageView) -> NodeView {
        let s = self.observe_term(m.term());
        match m {
            MessageView::RequestVote { term, candidate_id, last_log_index, last_log_term } => s.handle_request_vote(
                term,
                candidate_id,
                last_log_index,
                last_log_term,
            ),
            MessageView::RequestVoteReply { term, voter_id, vote_granted } => s.handle_request_vote_reply(
                term,
                voter_id,
                vote_granted,
            ),
            MessageView::AppendEntries {
                term,
                leader_id,
                prev_log_index,
                prev_log_term,
                entries,
                leader_commit,
            } => s.handle_append_entries(term, leader_id, prev_log_index, prev_log_term, entries, leader_commit),
            MessageView::AppendEntriesReply {
                term,
                success,
                match_index,
                conflict_index,
                ..
            } => s.handle_append_entries_reply(from, term, success, match_index, conflict_index),
            MessageView::InstallSnapshot {
                term,
                leader_id,
                last_included_index,
                last_included_term,
                data,
            } => s.handle_install_snapshot(term, leader_id, last_included_index, last_included_term, data),
            MessageView::InstallSnapshotReply { term, .. } => s.handle_install_snapshot_reply(from, term),
        }
    }

    /// Whether handling `m` restarts the election timer (and so redraws the
    /// timeout).
    pub open spec fn step_resets_timer(self, m: MessageView) -> bool {
        let s = self.observe_term(m.term());
        ||| m.term() > self.current_term
        ||| match m {
            MessageView::RequestVote { term, candidate_id, last_log_index, last_log_term } => s.grants_vote(
                term,
                candidate_id,
                last_log_index,
                last_log_term,
            ),
            MessageView::AppendEntries { term, .. } => term >= s.current_term,
            MessageView::InstallSnapshot { term, .. } => term >= s.current_term,
            _ => false,
        }
    }

    /// How many election timeouts handling `m` draws: one when a higher term
    /// makes the node a follower, and one more when the handler restarts the
    /// timer (granting a vote, or hearing from a current leader).
    pub open spec fn step_draws(self, m: MessageView) -> nat {
        let s = self.observe_term(m.term());
        (if m.term() > self.current_term {
            1nat
        } else {
            0nat
        }) + match m {
            MessageView::RequestVote { term, candidate_id, last_log_index, last_log_term } => if s.grants_vote(
                term,
                candidate_id,
                last_log_index,
                last_log_term,
            ) {
                1nat
            } else {
                0nat
            },
            MessageView::AppendEntries { term, .. } => if term >= s.current_term {
                1nat
            } else {
                0nat
            },
            MessageView::InstallSnapshot { term, .. } => if term >= s.current_term {
                1nat
            } else {
                0nat
            },
            _ => 0nat,
        }
    }

    /// How many election timeouts a tick draws: one when the election timer
    /// fires.
    pub open spec fn tick_draws(self) -> nat {
        if self.tick_resets_timer() {
            1
        } else {
            0
        }
    }

    /// The index arithmetic of `m` stays within `u64` (a log of `u64::MAX`
    /// entries cannot be held).
    pub open spec fn accepts(self, m: MessageView) -> bool {
        match m {
            MessageView::AppendEntries { prev_log_index, entries, .. } => {
                &&& prev_log_index + entries.len() < u64::MAX
                &&& self.log.last_index() + entries.len() < u64::MAX
            },
            MessageView::AppendEntriesReply { match_index, .. } => match_index < u64::MAX,
            MessageView::InstallSnapshot { last_included_index, .. } => last_included_index < u64::MAX,
            _ => true,
        }
    }

    /// Apply everything committed but not yet applied, then compact the log
    /// once enough has been applied since the last snapshot.
    pub open spec fn apply_committed(self) -> NodeView {
        let s = if self.last_applied < self.commit_index {
            NodeView {
                committed: self.committed + newly_committed(
                    self.log,
                    self.last_applied as int,
                    self.commit_index as int,
                ),
                last_applied: self.commit_index,
                ..self
            }
        } else {
            self
        };
        s.maybe_compact()
    }

    pub open spec fn maybe_compact(self) -> NodeView {
        let since = if self.last_applied >= self.log.snapshot_index {
            self.last_applied - self.log.snapshot_index
        } else {
            0
        };
        if since >= self.config.snapshot_threshold {
            NodeView { log: self.log.compacted(self.last_applied), ..self }
        } else {
            self
        }
    }

    /// The state once the outputs were drained.
    pub open spec fn drained(self) -> NodeView {
        NodeView { outgoing: Seq::empty(), committed: Seq::empty(), ..self.apply_committed() }
    }
}

} // verus!
