//! The node runtime's decisions: what the single-owner driver does with the
//! [`RaftNode`] on each turn.
//!
//! The driver exclusively owns the node. Time, the peer transport, client
//! channels and the shared store are the runtime's business; the driver says
//! what to send, what to apply, which waiting clients to answer, and which
//! metrics to publish.

use std::collections::HashMap;

use vstd::prelude::*;
use vstd::std_specs::hash::spec_keys_iter;
use vstd::std_specs::iter::IteratorSpec;

use crate::metrics::MetricsInner;
use crate::raft::message::{opt_id_view, InstallSnapshot, Message, MessageView, NodeId};
use crate::raft::model::{CommittedView, EnvelopeView, NodeView};
use crate::raft::node::{committed_views, envelope_views, Committed, Envelope, RaftNode};
use crate::raft::state::Role;
use crate::storage::engine::{lists_exactly, pairs_view, StorageEngine};

verus! {

broadcast use vstd::std_specs::hash::group_hash_axioms;

/// Result of a proposed write.
#[derive(Debug, Clone, PartialEq, Eq)]
pub enum ProposeOutcome {
    Committed,
    NotLeader(Option<String>),
}

/// Human-readable cluster state.
#[derive(Debug, Clone)]
pub struct ClusterStatus {
    pub id: String,
    pub role: &'static str,
    pub term: u64,
    pub leader: Option<String>,
    pub commit_index: u64,
    pub cluster_size: usize,
}

/// The name a role is reported by.
pub open spec fn role_name(r: Role) -> Seq<char> {
    match r {
        Role::Leader => "leader"@,
        Role::Candidate => "candidate"@,
        Role::Follower => "follower"@,
    }
}

/// The waiters registered for log index `index`, in the order they came.
pub open spec fn waiting_on<W>(m: Map<u64, Seq<W>>, index: u64) -> Seq<W> {
    if m.contains_key(index) {
        m[index]
    } else {
        Seq::empty()
    }
}

/// The waiters of the indices `ks`, index by index.
pub open spec fn gathered<W>(m: Map<u64, Seq<W>>, ks: Seq<u64>) -> Seq<W>
    decreases ks.len(),
{
    if ks.len() == 0 {
        Seq::empty()
    } else {
        gathered(m, ks.drop_last()) + waiting_on(m, ks.last())
    }
}

/// `out` holds every waiter of `m`, index by index, each index once; the
/// order of the indices is the one the hash map's walk gave.
pub open spec fn all_waiters<W>(m: Map<u64, Seq<W>>, out: Seq<W>) -> bool {
    exists|ks: Seq<u64>| ks.no_duplicates() && ks.to_set() == m.dom() && #[trigger] gathered(m, ks) == out
}

/// Clients waiting for their write to commit, by the log index it was
/// given.
pub struct Waiters<W> {
    by_index: HashMap<u64, Vec<W>>,
}

impl<W> View for Waiters<W> {
    type V = Map<u64, Seq<W>>;

    closed spec fn view(&self) -> Map<u64, Seq<W>> {
        self.by_index@.map_values(|v: Vec<W>| v@)
    }
}

impl<W> Waiters<W> {
    /// No one waiting.
    pub fn new() -> (res: Self)
        ensures
            res@ == Map::<u64, Seq<W>>::empty(),
    {
        let res = Waiters { by_index: HashMap::new() };
        assert(res@ =~= Map::<u64, Seq<W>>::empty());
        res
    }

    /// Register a waiter for `index`.
    pub fn add(&mut self, index: u64, waiter: W)
        ensures
            final(self)@ == old(self)@.insert(index, waiting_on(old(self)@, index).push(waiter)),
    {
        let mut list = match self.by_index.remove(&index) {
            Some(l) => l,
            None => Vec::new(),
        };
        list.push(waiter);
        self.by_index.insert(index, list);
        assert(self@ =~= old(self)@.insert(index, waiting_on(old(self)@, index).push(waiter)));
    }

    /// Whether no one is waiting.
    pub fn is_empty(&self) -> (res: bool)
        ensures
            res == self@.is_empty(),
    {
        self.by_index.is_empty()
    }

    /// Remove and return the waiters for `index`.
    pub fn take(&mut self, index: u64) -> (res: Vec<W>)
        ensures
            res@ == waiting_on(old(self)@, index),
            final(self)@ == old(self)@.remove(index),
    {
        let res = match self.by_index.remove(&index) {
            Some(l) => l,
            None => Vec::new(),
        };
        assert(self@ =~= old(self)@.remove(index));
        res
    }

    /// Remove and return every waiter.
    pub fn drain(&mut self) -> (res: Vec<W>)
        ensures
            all_waiters(old(self)@, res@),
            final(self)@ == Map::<u64, Seq<W>>::empty(),
    {
        let ghost start = self@;
        let mut indices: Vec<u64> = Vec::new();
        for k in it: self.by_index.keys()
            invariant
                indices@.len() == it.index@,
                it.seq() == spec_keys_iter(&self.by_index).remaining(),
                forall|i: int| 0 <= i < it.index@ ==> indices@[i] == *it.seq()[i],
        {
            indices.push(*k);
        }
        let ghost all = spec_keys_iter(&self.by_index).remaining();
        assert(indices@ =~= all.unref());
        let ghost ks = indices@;
        assert(ks.no_duplicates() && ks.to_set() == start.dom());
        let mut out: Vec<W> = Vec::new();
        let mut i: usize = 0;
        while i < indices.len()
            invariant
                i <= indices@.len(),
                ks == indices@,
                ks.no_duplicates(),
                ks.to_set() == start.dom(),
                out@ == gathered(start, ks.take(i as int)),
                self@ == start.remove_keys(ks.take(i as int).to_set()),
            decreases indices.len() - i,
        {
            let index = indices[i];
            let ghost pre = self@;
            proof {
                assert(ks.take(i + 1).drop_last() =~= ks.take(i as int));
                assert(ks.take(i + 1).last() == index);
                assert(!ks.take(i as int).to_set().contains(index)) by {
                    if ks.take(i as int).to_set().contains(index) {
                        let j = choose|j: int| 0 <= j < i && ks.take(i as int)[j] == index;
                        assert(ks[j] == ks[i as int]);
                    }
                }
                assert(start.dom().contains(index)) by {
                    assert(ks.to_set().contains(ks[i as int]));
                }
            }
            let mut list = self.take(index);
            out.append(&mut list);
            proof {
                assert(waiting_on(pre, index) == waiting_on(start, index));
                assert(ks.take(i + 1).to_set() =~= ks.take(i as int).to_set().insert(index));
                assert(self@ =~= start.remove_keys(ks.take(i + 1).to_set()));
            }
            i = i + 1;
        }
        proof {
            assert(ks.take(ks.len() as int) =~= ks);
            assert(self@ =~= Map::<u64, Seq<W>>::empty());
            assert(gathered(start, ks) == out@);
        }
        out
    }
}

/// Metric values to publish after a turn.
#[derive(Debug, Clone, Copy, PartialEq, Eq)]
pub struct MetricsUpdate {
    /// This node has just become leader.
    pub won_election: bool,
    pub current_term: u64,
    pub is_leader: i64,
    pub commit_index: u64,
    pub log_len: u64,
}

impl MetricsUpdate {
    /// Write the values to the shared metrics.
    pub fn publish(&self, metrics: &MetricsInner) {
        if self.won_election {
            MetricsInner::incr(&metrics.elections_won_total);
        }
        MetricsInner::set_u64(&metrics.current_term, self.current_term);
        MetricsInner::set_i64(&metrics.is_leader, self.is_leader);
        MetricsInner::set_u64(&metrics.commit_index, self.commit_index);
        MetricsInner::set_u64(&metrics.log_len, self.log_len);
    }
}

/// What the runtime must do after a turn of the driver.
pub struct Effects<W> {
    /// Messages to hand to the peer transport.
    pub messages: Vec<Envelope>,
    /// Committed outputs to apply to the store, in order.
    pub committed: Vec<Committed>,
    /// Waiters whose write has been applied: answer them `Committed`, once
    /// the outputs are applied.
    pub resolved: Vec<W>,
    /// Waiters to answer `NotLeader(leader)`: this node is no longer leader.
    pub failed: Vec<W>,
    /// The leader this node knows of.
    pub leader: Option<String>,
    /// The metrics to publish.
    pub metrics: MetricsUpdate,
}

/// A message as sent: an `InstallSnapshot` carries the store's contents (the
/// consensus core leaves its data empty); any other message is unchanged.
pub open spec fn filled(sent: MessageView, made: MessageView, contents: Map<Seq<char>, Seq<u8>>) -> bool {
    match made {
        MessageView::InstallSnapshot { term, leader_id, last_included_index, last_included_term, .. } => {
            &&& sent matches MessageView::InstallSnapshot { term: t, leader_id: l, last_included_index: i, last_included_term: lt, data }
            &&& t == term && l == leader_id && i == last_included_index && lt == last_included_term
            &&& lists_exactly(data, contents)
        },
        _ => sent == made,
    }
}

/// Envelopes as sent, one for each one made, to the same peer.
pub open spec fn all_filled(
    sent: Seq<EnvelopeView>,
    made: Seq<EnvelopeView>,
    contents: Map<Seq<char>, Seq<u8>>,
) -> bool {
    &&& sent.len() == made.len()
    &&& forall|i: int| 0 <= i < made.len() ==> #[trigger] sent[i].to == made[i].to && filled(
        sent[i].message,
        made[i].message,
        contents,
    )
}

/// Answering every committed command in turn: the waiters answered, and the
/// registrations left.
pub open spec fn resolve_all<W>(s: Map<u64, Seq<W>>, committed: Seq<CommittedView>) -> (Seq<W>, Map<u64, Seq<W>>)
    decreases committed.len(),
{
    if committed.len() == 0 {
        (Seq::empty(), s)
    } else {
        let (done, left) = resolve_all(s, committed.drop_last());
        match committed.last() {
            CommittedView::Command { index, .. } => (done + waiting_on(left, index), left.remove(index)),
            CommittedView::Snapshot(_) => (done, left),
        }
    }
}

/// The single-owner Raft driver.
pub struct Driver<W> {
    node: RaftNode,
    waiters: Waiters<W>,
    was_leader: bool,
    cluster_size: usize,
}

impl<W> Driver<W> {
    /// The driver's invariant: the node's own.
    pub closed spec fn wf(&self) -> bool {
        self.node.wf()
    }

    /// The node's state.
    pub closed spec fn node_view(&self) -> NodeView {
        self.node@
    }

    /// The registered waiters.
    pub closed spec fn waiting(&self) -> Map<u64, Seq<W>> {
        self.waiters@
    }

    /// Whether the node was leader at the end of the last turn.
    pub closed spec fn was_leader(&self) -> bool {
        self.was_leader
    }

    /// The number of members, this node included, reported in the status.
    pub closed spec fn size(&self) -> usize {
        self.cluster_size
    }

    /// A driver for `node` in a cluster of `cluster_size` members.
    pub fn new(node: RaftNode, cluster_size: usize) -> (res: Self)
        requires
            node.wf(),
        ensures
            res.wf(),
            res.node_view() == node@,
            res.waiting() == Map::<u64, Seq<W>>::empty(),
            !res.was_leader(),
            res.size() == cluster_size,
    {
        Driver { node, waiters: Waiters::new(), was_leader: false, cluster_size }
    }

    /// The node's current term.
    pub fn current_term(&self) -> (res: u64)
        ensures
            res == self.node_view().current_term,
    {
        self.node.current_term()
    }

    /// The index of the node's last log entry.
    pub fn last_log_index(&self) -> (res: u64)
        requires
            self.wf(),
        ensures
            res == self.node_view().log.last_index(),
    {
        self.node.last_log_index()
    }

    /// Whether the node can handle `message` (its indices fit in a `u64`).
    pub fn accepts(&self, message: &Message) -> (res: bool)
        requires
            self.wf(),
        ensures
            res == self.node_view().accepts(message@),
    {
        self.node.accepts(message)
    }

    /// One tick of time.
    pub fn tick(&mut self)
        requires
            old(self).wf(),
            old(self).node_view().current_term < u64::MAX,
        ensures
            final(self).wf(),
            final(self).node_view() == (if old(self).node_view().tick_resets_timer() {
                old(self).node_view().tick().with_timeout(final(self).node_view().election_timeout)
            } else {
                old(self).node_view().tick()
            }),
            final(self).waiting() == old(self).waiting(),
            final(self).was_leader() == old(self).was_leader(),
            final(self).size() == old(self).size(),
    {
        self.node.tick();
    }

    /// An inbound Raft message from a peer.
    pub fn step(&mut self, from: NodeId, message: Message)
        requires
            old(self).wf(),
            old(self).node_view().accepts(message@),
        ensures
            final(self).wf(),
            final(self).node_view() == (if old(self).node_view().step_resets_timer(message@) {
                old(self).node_view().step(from@, message@).with_timeout(final(self).node_view().election_timeout)
            } else {
                old(self).node_view().step(from@, message@)
            }),
            final(self).waiting() == old(self).waiting(),
            final(self).was_leader() == old(self).was_leader(),
            final(self).size() == old(self).size(),
    {
        self.node.step(from, message);
    }

    /// A client write to replicate. A leader appends it and keeps `done`
    /// until the entry commits; otherwise `done` comes back with the leader
    /// to redirect the client to.
    pub fn propose(&mut self, command: Vec<u8>, done: W) -> (res: Option<(W, Option<String>)>)
        requires
            old(self).wf(),
            old(self).node_view().log.last_index() + 1 < u64::MAX,
        ensures
            final(self).wf(),
            final(self).node_view() == old(self).node_view().propose(command@),
            final(self).was_leader() == old(self).was_leader(),
            final(self).size() == old(self).size(),
            old(self).node_view().role == Role::Leader ==> {
                &&& res is None
                &&& final(self).waiting() == old(self).waiting().insert(
                    (old(self).node_view().log.last_index() + 1) as u64,
                    waiting_on(old(self).waiting(), (old(self).node_view().log.last_index() + 1) as u64).push(done),
                )
            },
            old(self).node_view().role != Role::Leader ==> {
                &&& res matches Some((w, l)) && w == done && opt_id_view(l) == old(self).node_view().leader_id
                &&& final(self).waiting() == old(self).waiting()
            },
    {
        match self.node.propose(command) {
            Ok(index) => {
                self.waiters.add(index, done);
                None
            },
            Err(not_leader) => Some((done, not_leader.leader)),
        }
    }

    /// Put the store's contents into an `InstallSnapshot`.
    fn fill_snapshot<E: StorageEngine>(message: Message, storage: &E) -> (res: Message)
        requires
            storage.wf(),
        ensures
            filled(res@, message@, storage.contents()),
    {
        match message {
            Message::InstallSnapshot(snap) => {
                let InstallSnapshot { term, leader_id, last_included_index, last_included_term, data: _ } =
                    snap;
                let data = storage.snapshot();
                Message::InstallSnapshot(
                    InstallSnapshot { term, leader_id, last_included_index, last_included_term, data },
                )
            },
            other => other,
        }
    }

    /// Drain the node's outputs and decide what the runtime must do with them.
    pub fn process_ready<E: StorageEngine>(&mut self, storage: &E) -> (res: Effects<W>)
        requires
            old(self).wf(),
            storage.wf(),
        ensures
            final(self).wf(),
            final(self).node_view() == old(self).node_view().drained(),
            final(self).size() == old(self).size(),
            all_filled(
                envelope_views(res.messages@),
                old(self).node_view().apply_committed().outgoing,
                storage.contents(),
            ),
            committed_views(res.committed@) == old(self).node_view().apply_committed().committed,
            res.resolved@ == resolve_all(old(self).waiting(), committed_views(res.committed@)).0,
            ({
                let left = resolve_all(old(self).waiting(), committed_views(res.committed@)).1;
                let leads = final(self).node_view().role == Role::Leader;
                if !leads && !left.is_empty() {
                    all_waiters(left, res.failed@) && final(self).waiting() == Map::<u64, Seq<W>>::empty()
                } else {
                    res.failed@ == Seq::<W>::empty() && final(self).waiting() == left
                }
            }),
            opt_id_view(res.leader) == final(self).node_view().leader_id,
            final(self).was_leader() == (final(self).node_view().role == Role::Leader),
            res.metrics.won_election == (final(self).node_view().role == Role::Leader && !old(self).was_leader()),
            res.metrics.current_term == final(self).node_view().current_term,
            res.metrics.is_leader == (if final(self).node_view().role == Role::Leader {
                1i64
            } else {
                0i64
            }),
            res.metrics.commit_index == final(self).node_view().commit_index,
            res.metrics.log_len == final(self).node_view().log.last_index(),
    {
        let ready = self.node.take_ready();
        let mut made = ready.messages;
        let committed = ready.committed;
        let ghost made_views = envelope_views(made@);
        let total = made.len();
        let mut messages: Vec<Envelope> = Vec::new();
        let mut k: usize = 0;
        while made.len() > 0
            invariant
                storage.wf(),
                k + made@.len() == made_views.len(),
                made_views.len() == total,
                envelope_views(made@) == made_views.skip(k as int),
                messages@.len() == k,
                all_filled(envelope_views(messages@), made_views.take(k as int), storage.contents()),
            decreases made@.len(),
        {
            let ghost pre = made@;
            let ghost prem = messages@;
            let env = made.remove(0);
            proof {
                assert(made_views[k as int] == env@) by {
                    assert(envelope_views(pre)[0] == made_views.skip(k as int)[0]);
                }
                assert(envelope_views(made@) =~= made_views.skip(k + 1)) by {
                    assert forall|j: int| 0 <= j < made@.len() implies #[trigger] envelope_views(made@)[j]
                        == made_views.skip(k + 1)[j] by {
                        assert(envelope_views(pre)[j + 1] == made_views.skip(k as int)[j + 1]);
                    }
                }
            }
            let Envelope { to, message } = env;
            let ghost made_message = message@;
            let message = Self::fill_snapshot(message, storage);
            let out = Envelope { to, message };
            proof {
                assert(out@.to == made_views[k as int].to);
                assert(filled(out@.message, made_message, storage.contents()));
                assert(made_message == made_views[k as int].message);
            }
            messages.push(out);
            proof {
                let sent = envelope_views(messages@);
                let t = made_views.take(k + 1);
                assert forall|i: int| 0 <= i < t.len() implies #[trigger] sent[i].to == t[i].to && filled(
                    sent[i].message,
                    t[i].message,
                    storage.contents(),
                ) by {
                    if i < k {
                        assert(sent[i] == envelope_views(prem)[i]);
                        assert(t[i] == made_views.take(k as int)[i]);
                        assert(envelope_views(prem)[i].to == made_views.take(k as int)[i].to);
                    } else {
                        assert(sent[i] == out@);
                        assert(t[i] == made_views[k as int]);
                    }
                }
                assert(sent.len() == t.len());
                assert(all_filled(sent, t, storage.contents()));
            }
            k = k + 1;
        }
        proof {
            assert(made_views.take(made_views.len() as int) =~= made_views);
        }
        let ghost before = self.waiters@;
        let ghost cviews = committed_views(committed@);
        let mut resolved: Vec<W> = Vec::new();
        let mut i: usize = 0;
        while i < committed.len()
            invariant
                i <= committed@.len(),
                cviews == committed_views(committed@),
                resolved@ == resolve_all(before, cviews.take(i as int)).0,
                self.waiters@ == resolve_all(before, cviews.take(i as int)).1,
                self.node.wf(),
                self.node@ == old(self).node@.drained(),
                self.was_leader == old(self).was_leader,
                self.cluster_size == old(self).cluster_size,
            decreases committed.len() - i,
        {
            proof {
                let t = cviews.take(i + 1);
                assert(t.drop_last() =~= cviews.take(i as int));
                assert(t.last() == committed@[i as int]@);
            }
            match &committed[i] {
                Committed::Command { index, .. } => {
                    let mut done = self.waiters.take(*index);
                    resolved.append(&mut done);
                },
                Committed::Snapshot(_) => {},
            }
            i = i + 1;
        }
        proof {
            assert(cviews.take(committed@.len() as int) =~= cviews);
        }
        let is_leader = self.node.is_leader();
        let metrics = MetricsUpdate {
            won_election: is_leader && !self.was_leader,
            current_term: self.node.current_term(),
            is_leader: if is_leader {
                1
            } else {
                0
            },
            commit_index: self.node.commit_index(),
            log_len: self.node.last_log_index(),
        };
        self.was_leader = is_leader;
        let leader = match self.node.leader_id() {
            Some(l) => Some(l.to_owned()),
            None => None,
        };
        let failed = if !is_leader && !self.waiters.is_empty() {
            self.waiters.drain()
        } else {
            Vec::new()
        };
        Effects { messages, committed, resolved, failed, leader, metrics }
    }

    /// Current cluster state.
    pub fn status(&self) -> (res: ClusterStatus)
        ensures
            res.id@ == self.node_view().id,
            res.role@ == role_name(self.node_view().role),
            res.term == self.node_view().current_term,
            opt_id_view(res.leader) == self.node_view().leader_id,
            res.commit_index == self.node_view().commit_index,
            res.cluster_size == self.size(),
    {
        let role = match self.node.role() {
            Role::Leader => "leader",
            Role::Candidate => "candidate",
            Role::Follower => "follower",
        };
        ClusterStatus {
            id: self.node.id().to_owned(),
            role,
            term: self.node.current_term(),
            leader: match self.node.leader_id() {
                Some(l) => Some(l.to_owned()),
                None => None,
            },
            commit_index: self.node.commit_index(),
            cluster_size: self.cluster_size,
        }
    }
}

} // verus!
