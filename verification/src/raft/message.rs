//! Raft RPC messages exchanged between nodes.
//!
//! They mirror the RPCs from the Raft paper: RequestVote and AppendEntries
//! (heartbeats are just AppendEntries with no entries), plus InstallSnapshot
//! for catching up a peer that has fallen behind the leader's compacted log.

use vstd::prelude::*;

use super::log::{entry_views, EntryView, LogEntry};
use crate::storage::engine::{pairs_view, KeyValue};

verus! {

/// A node identifier.
pub type NodeId = String;

/// The view of an optional node id.
pub open spec fn opt_id_view(o: Option<NodeId>) -> Option<Seq<char>> {
    match o {
        Some(s) => Some(s@),
        None => None,
    }
}

/// Any message that can travel over the Raft transport.
#[derive(Debug, Clone)]
pub enum Message {
    RequestVote(RequestVote),
    RequestVoteReply(RequestVoteReply),
    AppendEntries(AppendEntries),
    AppendEntriesReply(AppendEntriesReply),
    InstallSnapshot(InstallSnapshot),
    InstallSnapshotReply(InstallSnapshotReply),
}

/// §5.2 — candidate solicits a vote.
#[derive(Debug, Clone)]
pub struct RequestVote {
    pub term: u64,
    pub candidate_id: NodeId,
    pub last_log_index: u64,
    pub last_log_term: u64,
}

#[derive(Debug, Clone)]
pub struct RequestVoteReply {
    pub term: u64,
    pub voter_id: NodeId,
    pub vote_granted: bool,
}

/// §5.3 — leader replicates entries (empty = heartbeat).
#[derive(Debug, Clone)]
pub struct AppendEntries {
    pub term: u64,
    pub leader_id: NodeId,
    pub prev_log_index: u64,
    pub prev_log_term: u64,
    pub entries: Vec<LogEntry>,
    pub leader_commit: u64,
}

#[derive(Debug, Clone)]
pub struct AppendEntriesReply {
    pub term: u64,
    pub follower_id: NodeId,
    pub success: bool,
    /// On success, the highest index now stored by the follower — lets the
    /// leader advance `match_index` without guessing.
    pub match_index: u64,
    /// On failure, a hint about where the follower's log diverges so the leader
    /// can back up `next_index` faster than one-at-a-time.
    pub conflict_index: u64,
}

/// §7 — leader ships a snapshot to a follower whose needed entries were
/// already compacted away.
#[derive(Debug, Clone)]
pub struct InstallSnapshot {
    pub term: u64,
    pub leader_id: NodeId,
    pub last_included_index: u64,
    pub last_included_term: u64,
    pub data: Vec<KeyValue>,
}

#[derive(Debug, Clone)]
pub struct InstallSnapshotReply {
    pub term: u64,
    pub follower_id: NodeId,
}

/// The mathematical value of a [`Message`]: ids as character sequences,
/// entries and snapshot data as their values.
pub enum MessageView {
    RequestVote { term: u64, candidate_id: Seq<char>, last_log_index: u64, last_log_term: u64 },
    RequestVoteReply { term: u64, voter_id: Seq<char>, vote_granted: bool },
    AppendEntries {
        term: u64,
        leader_id: Seq<char>,
        prev_log_index: u64,
        prev_log_term: u64,
        entries: Seq<EntryView>,
        leader_commit: u64,
    },
    AppendEntriesReply {
        term: u64,
        follower_id: Seq<char>,
        success: bool,
        match_index: u64,
        conflict_index: u64,
    },
    InstallSnapshot {
        term: u64,
        leader_id: Seq<char>,
        last_included_index: u64,
        last_included_term: u64,
        data: Seq<(Seq<char>, Seq<u8>)>,
    },
    InstallSnapshotReply { term: u64, follower_id: Seq<char> },
}

impl MessageView {
    /// The sender's term, present on every message.
    pub open spec fn term(self) -> u64 {
        match self {
            MessageView::RequestVote { term, .. } => term,
            MessageView::RequestVoteReply { term, .. } => term,
            MessageView::AppendEntries { term, .. } => term,
            MessageView::AppendEntriesReply { term, .. } => term,
            MessageView::InstallSnapshot { term, .. } => term,
            MessageView::InstallSnapshotReply { term, .. } => term,
        }
    }
}

impl View for Message {
    type V = MessageView;

    open spec fn view(&self) -> MessageView {
        match self {
            Message::RequestVote(m) => MessageView::RequestVote {
                term: m.term,
                candidate_id: m.candidate_id@,
                last_log_index: m.last_log_index,
                last_log_term: m.last_log_term,
            },
            Message::RequestVoteReply(m) => MessageView::RequestVoteReply {
                term: m.term,
                voter_id: m.voter_id@,
                vote_granted: m.vote_granted,
            },
            Message::AppendEntries(m) => MessageView::AppendEntries {
                term: m.term,
                leader_id: m.leader_id@,
                prev_log_index: m.prev_log_index,
                prev_log_term: m.prev_log_term,
                entries: entry_views(m.entries@),
                leader_commit: m.leader_commit,
            },
            Message::AppendEntriesReply(m) => MessageView::AppendEntriesReply {
                term: m.term,
                follower_id: m.follower_id@,
                success: m.success,
                match_index: m.match_index,
                conflict_index: m.conflict_index,
            },
            Message::InstallSnapshot(m) => MessageView::InstallSnapshot {
                term: m.term,
                leader_id: m.leader_id@,
                last_included_index: m.last_included_index,
                last_included_term: m.last_included_term,
                data: pairs_view(m.data@),
            },
            Message::InstallSnapshotReply(m) => MessageView::InstallSnapshotReply {
                term: m.term,
                follower_id: m.follower_id@,
            },
        }
    }
}

impl Message {
    /// The sender's term, present on every message, used for the universal
    /// "step down if we see a higher term" rule.
    pub fn term(&self) -> (res: u64)
        ensures
            res == self@.term(),
    {
        match self {
            Message::RequestVote(m) => m.term,
            Message::RequestVoteReply(m) => m.term,
            Message::AppendEntries(m) => m.term,
            Message::AppendEntriesReply(m) => m.term,
            Message::InstallSnapshot(m) => m.term,
            Message::InstallSnapshotReply(m) => m.term,
        }
    }
}

} // verus!
