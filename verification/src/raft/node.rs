//! The Raft consensus state machine.
//!
//! [`RaftNode`] is deliberately *pure* and synchronous: it consumes inputs
//! (timer ticks, inbound [`Message`]s, client proposals) and accumulates
//! outputs (outbound messages, committed entries) that the caller drains via
//! [`RaftNode::take_ready`]. Every operation is proved to follow the model in
//! [`super::model`].

use rand::rngs::StdRng;
use rand::{Rng, SeedableRng};
use vstd::prelude::*;

use super::log::{entry_views, EntryView, LogEntry, RaftLog};
use super::message::{
    opt_id_view, AppendEntries, AppendEntriesReply, InstallSnapshot, InstallSnapshotReply, Message,
    NodeId, RequestVote, RequestVoteReply,
};
use super::message::MessageView;
use super::model::{count_holding, match_of, newly_committed, CommittedView, EnvelopeView, NodeView};
use super::state::{id_views, uniform_map, LeaderProgress, Role, VoteTally};
use crate::storage::engine::{pairs_view, KeyValue};

verus! {

#[verifier::external_type_specification]
#[verifier::external_body]
pub struct ExStdRng(StdRng);

/// The values that `rand::Rng::gen_range(lo..=hi)` draws, one per range of
/// `ranges` in order, from a `StdRng` made by `SeedableRng::seed_from_u64(seed)`.
/// `StdRng` is documented as deterministic, so they depend on the seed and the
/// ranges alone.
pub uninterp spec fn seeded_draws(seed: u64, ranges: Seq<(u64, u64)>) -> Seq<u64>;

/// A random generator together with what is known of it: the seed it was
/// made from (none when the operating system seeded it) and the ranges drawn
/// from it so far.
pub struct DrawRng {
    rng: StdRng,
    seed: Ghost<Option<u64>>,
    drawn: Ghost<Seq<(u64, u64)>>,
}

impl DrawRng {
    /// The seed the generator was made from, if any.
    pub closed spec fn seed(&self) -> Option<u64> {
        self.seed@
    }

    /// The ranges drawn so far, in order.
    pub closed spec fn drawn(&self) -> Seq<(u64, u64)> {
        self.drawn@
    }
}

/// Calls `rand::SeedableRng::seed_from_u64` for `StdRng`: a generator made
/// from `seed`, with nothing drawn yet.
#[verifier::external_body]
fn seeded_rng(seed: u64) -> (res: DrawRng)
    ensures
        res.seed() == Some(seed),
        res.drawn() == Seq::<(u64, u64)>::empty(),
{
    DrawRng { rng: StdRng::seed_from_u64(seed), seed: Ghost(Some(seed)), drawn: Ghost(Seq::empty()) }
}

/// Calls `rand::SeedableRng::from_rng` for `StdRng` with `OsRng`: a
/// generator seeded by the operating system, or `None` when the system
/// offers no entropy (the call's `Err`).
#[verifier::external_body]
fn os_rng() -> (res: Option<DrawRng>)
    ensures
        res matches Some(r) ==> r.seed() is None && r.drawn() == Seq::<(u64, u64)>::empty(),
{
    match StdRng::from_rng(rand::rngs::OsRng) {
        Ok(rng) => Some(DrawRng { rng, seed: Ghost(None), drawn: Ghost(Seq::empty()) }),
        Err(_) => None,
    }
}

/// Calls `rand::Rng::gen_range` with the inclusive range `lo..=hi`: the value
/// lies in that range; from a seeded generator it is the next of the seed's
/// draws. The call panics on an empty range, which `requires` excludes.
#[verifier::external_body]
fn draw_in(rng: &mut DrawRng, lo: u64, hi: u64) -> (res: u64)
    requires
        lo <= hi,
    ensures
        lo <= res <= hi,
        final(rng).seed() == old(rng).seed(),
        final(rng).drawn() == old(rng).drawn().push((lo, hi)),
        old(rng).seed() matches Some(s) ==> res == seeded_draws(s, final(rng).drawn()).last(),
{
    rng.rng.gen_range(lo..=hi)
}

/// `n` draws from the range `r`.
pub open spec fn repeated(r: (u64, u64), n: nat) -> Seq<(u64, u64)> {
    Seq::new(n, |i: int| r)
}

/// The node and its draws after a tick, when its generator was made from
/// `seed` and `drawn` had been drawn from it.
pub open spec fn seeded_tick(v: NodeView, seed: u64, drawn: Seq<(u64, u64)>) -> (NodeView, Seq<(u64, u64)>) {
    let d = drawn + repeated((v.config.election_timeout_min, v.config.election_timeout_max), v.tick_draws());
    (
        if v.tick_resets_timer() {
            v.tick().with_timeout(seeded_draws(seed, d).last())
        } else {
            v.tick()
        },
        d,
    )
}

/// The node and its draws after handling `m` from `from`, when its generator
/// was made from `seed` and `drawn` had been drawn from it.
pub open spec fn seeded_step(
    v: NodeView,
    seed: u64,
    drawn: Seq<(u64, u64)>,
    from: Seq<char>,
    m: MessageView,
) -> (NodeView, Seq<(u64, u64)>) {
    let d = drawn + repeated((v.config.election_timeout_min, v.config.election_timeout_max), v.step_draws(m));
    (
        if v.step_resets_timer(m) {
            v.step(from, m).with_timeout(seeded_draws(seed, d).last())
        } else {
            v.step(from, m)
        },
        d,
    )
}

/// Timing and behaviour knobs, expressed in abstract "ticks".
#[derive(Debug, Clone, Copy)]
pub struct RaftConfig {
    /// Ticks between leader heartbeats.
    pub heartbeat_ticks: u64,
    /// Lower bound of the randomized election timeout, in ticks.
    pub election_timeout_min: u64,
    /// Upper bound of the randomized election timeout, in ticks.
    pub election_timeout_max: u64,
    /// Compact the log once it grows beyond this many entries.
    pub snapshot_threshold: u64,
    /// Optional fixed RNG seed for deterministic tests.
    pub seed: Option<u64>,
}

impl Default for RaftConfig {
    fn default() -> (res: Self)
        ensures
            res == (RaftConfig {
                heartbeat_ticks: 1,
                election_timeout_min: 5,
                election_timeout_max: 10,
                snapshot_threshold: 1024,
                seed: None,
            }),
    {
        RaftConfig {
            heartbeat_ticks: 1,
            election_timeout_min: 5,
            election_timeout_max: 10,
            snapshot_threshold: 1024,
            seed: None,
        }
    }
}

/// A message addressed to a specific peer.
#[derive(Debug, Clone)]
pub struct Envelope {
    pub to: NodeId,
    pub message: Message,
}

impl View for Envelope {
    type V = EnvelopeView;

    open spec fn view(&self) -> EnvelopeView {
        EnvelopeView { to: self.to@, message: self.message@ }
    }
}

/// Something that has been committed and must be applied to the state machine.
#[derive(Debug, Clone)]
pub enum Committed {
    /// A committed log entry carrying an application command.
    Command { index: u64, command: Vec<u8> },
    /// A snapshot installed from the leader; the state machine should be
    /// wholesale replaced with this data.
    Snapshot(Vec<KeyValue>),
}

impl View for Committed {
    type V = CommittedView;

    open spec fn view(&self) -> CommittedView {
        match self {
            Committed::Command { index, command } => CommittedView::Command {
                index: *index,
                command: command@,
            },
            Committed::Snapshot(data) => CommittedView::Snapshot(pairs_view(data@)),
        }
    }
}

/// The views of a list of envelopes.
pub open spec fn envelope_views(s: Seq<Envelope>) -> Seq<EnvelopeView> {
    Seq::new(s.len(), |i: int| s[i]@)
}

/// The views of a list of committed outputs.
pub open spec fn committed_views(s: Seq<Committed>) -> Seq<CommittedView> {
    Seq::new(s.len(), |i: int| s[i]@)
}

/// Outputs produced since the last drain.
#[derive(Debug)]
pub struct Ready {
    pub messages: Vec<Envelope>,
    pub committed: Vec<Committed>,
}

/// Returned by [`RaftNode::propose`] when this node isn't the leader.
#[derive(Debug, Clone)]
pub struct NotLeader {
    pub leader: Option<NodeId>,
}

/// A Raft peer's full consensus state.
pub struct RaftNode {
    id: NodeId,
    peers: Vec<NodeId>,
    config: RaftConfig,
    rng: DrawRng,
    role: Role,
    leader_id: Option<NodeId>,
    // Persistent state (would be fsync'd before responding in a durable build).
    current_term: u64,
    voted_for: Option<NodeId>,
    log: RaftLog,
    // Volatile state.
    commit_index: u64,
    last_applied: u64,
    progress: LeaderProgress,
    votes: VoteTally,
    // Timers, in ticks.
    election_elapsed: u64,
    heartbeat_elapsed: u64,
    election_timeout: u64,
    // Accumulated outputs.
    outgoing: Vec<Envelope>,
    committed: Vec<Committed>,
}

impl View for RaftNode {
    type V = NodeView;

    closed spec fn view(&self) -> NodeView {
        NodeView {
            id: self.id@,
            peers: id_views(self.peers@),
            config: self.config,
            role: self.role,
            leader_id: opt_id_view(self.leader_id),
            current_term: self.current_term,
            voted_for: opt_id_view(self.voted_for),
            log: self.log@,
            commit_index: self.commit_index,
            last_applied: self.last_applied,
            next_index: self.progress.next_index@,
            match_index: self.progress.match_index@,
            votes: self.votes@,
            election_elapsed: self.election_elapsed,
            heartbeat_elapsed: self.heartbeat_elapsed,
            election_timeout: self.election_timeout,
            outgoing: envelope_views(self.outgoing@),
            committed: committed_views(self.committed@),
        }
    }
}

impl RaftNode {
    /// The node's invariant: its parts are well formed and its state
    /// satisfies [`NodeView::inv`].
    pub closed spec fn wf(&self) -> bool {
        &&& self.log.wf()
        &&& self.progress.wf()
        &&& self.votes.wf()
        &&& self@.inv()
    }

    /// The seed of the node's generator, if it was seeded.
    pub closed spec fn rng_seed(&self) -> Option<u64> {
        self.rng.seed()
    }

    /// The ranges drawn from the node's generator so far.
    pub closed spec fn rng_drawn(&self) -> Seq<(u64, u64)> {
        self.rng.drawn()
    }

    /// Create a fresh follower.
    pub fn new(id: &str, peers: Vec<NodeId>, config: RaftConfig) -> (node: Self)
        requires
            config.election_timeout_min <= config.election_timeout_max,
            peers@.len() + 1 < usize::MAX,
        ensures
            node.wf(),
            node@.id == id@,
            node@.peers == id_views(peers@),
            node@.config == config,
            node@.role == Role::Follower,
            node@.leader_id.is_none(),
            node@.current_term == 0,
            node@.voted_for.is_none(),
            node@.log == (super::log::LogView {
                entries: Seq::empty(),
                snapshot_index: 0,
                snapshot_term: 0,
            }),
            node@.commit_index == 0,
            node@.last_applied == 0,
            node@.next_index == Map::<Seq<char>, u64>::empty(),
            node@.match_index == Map::<Seq<char>, u64>::empty(),
            node@.votes == Set::<Seq<char>>::empty(),
            node@.election_elapsed == 0,
            node@.heartbeat_elapsed == 0,
            config.election_timeout_min <= node@.election_timeout <= config.election_timeout_max,
            node@.outgoing == Seq::<EnvelopeView>::empty(),
            node@.committed == Seq::<CommittedView>::empty(),
            config.seed is Some ==> node.rng_seed() == config.seed,
            config.seed is None ==> node.rng_seed() is None || node.rng_seed() == Some(0u64),
            config.seed matches Some(s) ==> node@ == super::runs::fresh_node(id@, id_views(peers@), config, s)
                && node.rng_drawn() == super::runs::fresh_draws(config),
            node.rng_seed() matches Some(s) ==> node@.election_timeout == seeded_draws(
                s,
                seq![(config.election_timeout_min, config.election_timeout_max)],
            ).last(),
            node.rng_drawn() == seq![(config.election_timeout_min, config.election_timeout_max)],
            config.seed matches Some(s) ==> node@.election_timeout == seeded_draws(
                s,
                seq![(config.election_timeout_min, config.election_timeout_max)],
            ).last(),
    {
        // Without a seed the operating system seeds the generator; should it
        // offer no entropy, the generator is seeded with 0 (see the contract).
        let mut rng = match config.seed {
            Some(seed) => seeded_rng(seed),
            None => match os_rng() {
                Some(r) => r,
                None => seeded_rng(0),
            },
        };
        let election_timeout = draw_in(&mut rng, config.election_timeout_min, config.election_timeout_max);
        let node = RaftNode {
            id: id.to_owned(),
            peers,
            config,
            rng,
            role: Role::Follower,
            leader_id: None,
            current_term: 0,
            voted_for: None,
            log: RaftLog::new(),
            commit_index: 0,
            last_applied: 0,
            progress: LeaderProgress::new(),
            votes: VoteTally::new(),
            election_elapsed: 0,
            heartbeat_elapsed: 0,
            election_timeout,
            outgoing: Vec::new(),
            committed: Vec::new(),
        };
        assert(node@.outgoing =~= Seq::<EnvelopeView>::empty());
        assert(node@.committed =~= Seq::<CommittedView>::empty());
        node
    }

    pub fn id(&self) -> (res: &str)
        ensures
            res@ == self@.id,
    {
        self.id.as_str()
    }

    pub fn role(&self) -> (res: Role)
        ensures
            res == self@.role,
    {
        self.role
    }

    pub fn current_term(&self) -> (res: u64)
        ensures
            res == self@.current_term,
    {
        self.current_term
    }

    pub fn leader_id(&self) -> (res: Option<&str>)
        ensures
            match res {
                Some(s) => self@.leader_id == Some(s@),
                None => self@.leader_id.is_none(),
            },
    {
        match &self.leader_id {
            Some(s) => Some(s.as_str()),
            None => None,
        }
    }

    pub fn is_leader(&self) -> (res: bool)
        ensures
            res == (self@.role == Role::Leader),
    {
        self.role == Role::Leader
    }

    pub fn commit_index(&self) -> (res: u64)
        ensures
            res == self@.commit_index,
    {
        self.commit_index
    }

    pub fn last_log_index(&self) -> (res: u64)
        requires
            self.wf(),
        ensures
            res == self@.log.last_index(),
    {
        self.log.last_index()
    }

    /// Whether a message's indices leave room to handle it: every index it
    /// leads this node to compute must fit in a `u64`.
    pub fn accepts(&self, message: &Message) -> (res: bool)
        requires
            self.wf(),
        ensures
            res == self@.accepts(message@),
    {
        match message {
            Message::AppendEntries(m) => {
                let n = m.entries.len() as u64;
                n < u64::MAX && m.prev_log_index < u64::MAX - n && self.log.last_index() < u64::MAX - n
            },
            Message::AppendEntriesReply(m) => m.match_index < u64::MAX,
            Message::InstallSnapshot(m) => m.last_included_index < u64::MAX,
            _ => true,
        }
    }

    fn cluster_size(&self) -> (res: usize)
        requires
            self.wf(),
        ensures
            res == self@.peers.len() + 1,
    {
        self.peers.len() + 1
    }

    fn majority(&self) -> (res: usize)
        requires
            self.wf(),
        ensures
            res == self@.majority(),
    {
        self.cluster_size() / 2 + 1
    }

    /// Queue `message` for `to`.
    fn send(&mut self, to: NodeId, message: Message)
        requires
            old(self).wf(),
        ensures
            final(self).rng == old(self).rng,
            final(self).wf(),
            final(self)@ == old(self)@.send(to@, message@),
            final(self).peers@ == old(self).peers@,
    {
        let ghost env = EnvelopeView { to: to@, message: message@ };
        self.outgoing.push(Envelope { to, message });
        assert(self@.outgoing =~= old(self)@.outgoing.push(env));
    }
}


impl RaftNode {
    /// Follow `leader` in `term`; the timer restarts (one draw owed).
    fn become_follower(&mut self, term: u64, leader: Option<NodeId>, draws: &mut u64)
        requires
            old(self).wf(),
            *old(draws) < 8,
        ensures
            final(self).rng == old(self).rng,
            final(self).wf(),
            final(self)@ == old(self)@.become_follower(term, opt_id_view(leader)),
            final(self).peers@ == old(self).peers@,
            *final(draws) == *old(draws) + 1,
    {
        if term > self.current_term {
            self.voted_for = None;
        }
        self.current_term = term;
        self.role = Role::Follower;
        self.leader_id = leader;
        self.election_elapsed = 0;
        *draws = *draws + 1;
    }

    /// Draw a fresh election timeout once per timer restart owed, keeping
    /// the last one.
    fn finish_draws(&mut self, draws: u64)
        requires
            old(self).wf(),
            draws > 0 ==> old(self)@.election_elapsed == 0,
        ensures
            final(self).wf(),
            final(self)@ == old(self)@.with_timeout(final(self)@.election_timeout),
            draws == 0 ==> final(self)@.election_timeout == old(self)@.election_timeout,
            final(self).rng.seed() == old(self).rng.seed(),
            final(self).rng.drawn() == old(self).rng.drawn() + repeated(
                (old(self).config.election_timeout_min, old(self).config.election_timeout_max),
                draws as nat,
            ),
            draws > 0 ==> (old(self).rng.seed() matches Some(s) ==> final(self)@.election_timeout == seeded_draws(
                s,
                final(self).rng.drawn(),
            ).last()),
    {
        let mut k: u64 = 0;
        while k < draws
            invariant
                k <= draws,
                draws > 0 ==> old(self)@.election_elapsed == 0,
                self.wf(),
                self@ == old(self)@.with_timeout(self@.election_timeout),
                k == 0 ==> self@.election_timeout == old(self)@.election_timeout,
                k > 0 ==> self.config.election_timeout_min <= self.election_timeout <= self.config.election_timeout_max,
                self.config == old(self).config,
                self.rng.seed() == old(self).rng.seed(),
                self.rng.drawn() == old(self).rng.drawn() + repeated(
                    (self.config.election_timeout_min, self.config.election_timeout_max),
                    k as nat,
                ),
                k > 0 ==> (old(self).rng.seed() matches Some(s) ==> self.election_timeout == seeded_draws(
                    s,
                    self.rng.drawn(),
                ).last()),
                self.log == old(self).log,
                self.progress == old(self).progress,
                self.votes == old(self).votes,
            decreases draws - k,
        {
            let ghost before = self.rng.drawn();
            self.election_timeout = draw_in(&mut self.rng, self.config.election_timeout_min, self.config.election_timeout_max);
            proof {
                let r = (self.config.election_timeout_min, self.config.election_timeout_max);
                assert(before + repeated(r, (k + 1) as nat) =~= before.push(r) + repeated(r, k as nat)) by {
                    assert(repeated(r, (k + 1) as nat) =~= repeated(r, k as nat).push(r));
                }
                assert(old(self).rng.drawn() + repeated(r, (k + 1) as nat) =~= (old(self).rng.drawn() + repeated(r, k as nat)).push(r)) by {
                    assert(repeated(r, (k + 1) as nat) =~= repeated(r, k as nat).push(r));
                }
            }
            k = k + 1;
        }
    }

    /// What to send `peer` to bring it up to date.
    fn append_message(&self, peer: &str) -> (res: Message)
        requires
            self.wf(),
        ensures
            res@ == self@.append_message(peer@),
    {
        let next = self.progress.next_index(peer);
        // The needed entries have been compacted away — ship a snapshot instead.
        if next <= self.log.snapshot_index() {
            let data: Vec<KeyValue> = Vec::new();
            assert(pairs_view(data@) =~= Seq::<(Seq<char>, Seq<u8>)>::empty());
            return Message::InstallSnapshot(InstallSnapshot {
                term: self.current_term,
                leader_id: self.id.clone(),
                last_included_index: self.log.snapshot_index(),
                last_included_term: self.log.last_term(),
                data, // filled in by the driver, which owns the state machine
            });
        }
        let prev_index = next - 1;
        let prev_term = match self.log.term_at(prev_index) {
            Some(t) => t,
            None => 0,
        };
        let entries = self.log.entries_from(next);
        Message::AppendEntries(AppendEntries {
            term: self.current_term,
            leader_id: self.id.clone(),
            prev_log_index: prev_index,
            prev_log_term: prev_term,
            entries,
            leader_commit: self.commit_index,
        })
    }

    fn send_append(&mut self, peer: &str)
        requires
            old(self).wf(),
        ensures
            final(self).rng == old(self).rng,
            final(self).wf(),
            final(self)@ == old(self)@.send(peer@, old(self)@.append_message(peer@)),
            final(self).peers@ == old(self).peers@,
    {
        let message = self.append_message(peer);
        self.send(peer.to_owned(), message);
    }

    fn broadcast_append(&mut self)
        requires
            old(self).wf(),
        ensures
            final(self).rng == old(self).rng,
            final(self).wf(),
            final(self)@ == old(self)@.broadcast_append(),
            final(self).peers@ == old(self).peers@,
    {
        let mut i: usize = 0;
        let ghost start = self@;
        while i < self.peers.len()
            invariant
                self.rng == old(self).rng,
                i <= self.peers@.len(),
                self.wf(),
                self.peers@ == old(self).peers@,
                self@ == (NodeView {
                    outgoing: start.outgoing + start.append_envelopes().subrange(0, i as int),
                    ..start
                }),
            decreases self.peers.len() - i,
        {
            let ghost before = self@;
            assert(before.append_message(self.peers@[i as int]@) == start.append_message(self.peers@[i as int]@));
            let peer = self.peers[i].clone();
            self.send_append(peer.as_str());
            assert(start.append_envelopes().subrange(0, i + 1) =~= start.append_envelopes().subrange(0, i as int).push(
                start.append_envelopes()[i as int],
            ));
            i = i + 1;
        }
        assert(start.append_envelopes().subrange(0, i as int) =~= start.append_envelopes());
    }
}


impl RaftNode {
    /// The number of nodes holding index `n`: the leader and every peer
    /// whose match index reached it.
    fn count_replicas(&self, n: u64) -> (res: usize)
        requires
            self.wf(),
        ensures
            res == self@.replicas(n as int),
    {
        let mut replicas: usize = 1; // the leader itself
        let mut i: usize = 0;
        let ghost peers = self@.peers;
        while i < self.peers.len()
            invariant
                self.wf(),
                i <= self.peers@.len(),
                peers == id_views(self.peers@),
                replicas == 1 + count_holding(peers.take(i as int), self@.match_index, n as int),
                replicas <= i + 1,
            decreases self.peers.len() - i,
        {
            let m = match self.progress.match_index.get(self.peers[i].as_str()) {
                Some(v) => v,
                None => 0,
            };
            assert(peers.take(i + 1).drop_last() =~= peers.take(i as int));
            assert(peers.take(i + 1).last() == self.peers@[i as int]@);
            if m >= n {
                replicas = replicas + 1;
            }
            i = i + 1;
        }
        assert(peers.take(i as int) =~= peers);
        replicas
    }

    /// §5.3/§5.4 — advance `commit_index` to the highest N replicated on a
    /// majority, but only for entries from the current term.
    fn advance_commit(&mut self)
        requires
            old(self).wf(),
        ensures
            final(self).rng == old(self).rng,
            final(self).wf(),
            final(self)@ == old(self)@.advance_commit(),
            final(self).peers@ == old(self).peers@,
    {
        if self.role != Role::Leader {
            return;
        }
        let last = self.log.last_index();
        let majority = self.majority();
        let mut n = last;
        while n > self.commit_index
            invariant
                self.rng == old(self).rng,
                self.wf(),
                self@ == old(self)@,
                self.peers@ == old(self).peers@,
                self.role == Role::Leader,
                majority == self@.majority(),
                last == self@.log.last_index(),
                n <= last,
                self@.commit_search(last as int) == self@.commit_search(n as int),
            decreases n,
        {
            let holds = match self.log.term_at(n) {
                Some(t) => t == self.current_term,
                None => false,
            };
            if holds {
                let replicas = self.count_replicas(n);
                if replicas >= majority {
                    self.commit_index = n;
                    return;
                }
            }
            n = n - 1;
        }
    }

    fn become_leader(&mut self)
        requires
            old(self).wf(),
        ensures
            final(self).rng == old(self).rng,
            final(self).wf(),
            final(self)@ == old(self)@.become_leader(),
            final(self).peers@ == old(self).peers@,
    {
        self.role = Role::Leader;
        self.leader_id = Some(self.id.clone());
        let last = self.log.last_index();
        self.progress.reset(&self.peers, last);
        self.heartbeat_elapsed = 0;
        self.broadcast_append();
        // In a single-node cluster the leader's own log is trivially committed.
        self.advance_commit();
    }

    fn become_candidate(&mut self, draws: &mut u64)
        requires
            old(self).wf(),
            old(self)@.current_term < u64::MAX,
            *old(draws) < 8,
        ensures
            final(self).rng == old(self).rng,
            final(self).wf(),
            final(self)@ == old(self)@.become_candidate(),
            final(self).peers@ == old(self).peers@,
            *final(draws) == *old(draws) + 1,
    {
        self.role = Role::Candidate;
        self.current_term = self.current_term + 1;
        self.voted_for = Some(self.id.clone());
        self.leader_id = None;
        self.votes.clear();
        self.votes.record(self.id.clone());
        self.election_elapsed = 0;
        *draws = *draws + 1;
        assert(self@.votes =~= Set::empty().insert(old(self)@.id));

        // A single-node cluster elects itself instantly.
        if self.votes.count() >= self.majority() {
            self.become_leader();
            return;
        }
        let ghost start = self@;
        let ghost requests = Seq::new(
            start.peers.len(),
            |j: int| EnvelopeView { to: start.peers[j], message: start.request_vote_message() },
        );
        let mut i: usize = 0;
        while i < self.peers.len()
            invariant
                self.rng == old(self).rng,
                i <= self.peers@.len(),
                self.wf(),
                self.peers@ == old(self).peers@,
                start.peers == id_views(self.peers@),
                requests.len() == start.peers.len(),
                forall|j: int| 0 <= j < requests.len() ==> #[trigger] requests[j] == (EnvelopeView { to: start.peers[j], message: start.request_vote_message() }),
                self@ == (NodeView { outgoing: start.outgoing + requests.subrange(0, i as int), ..start }),
            decreases self.peers.len() - i,
        {
            let request = RequestVote {
                term: self.current_term,
                candidate_id: self.id.clone(),
                last_log_index: self.log.last_index(),
                last_log_term: self.log.last_term(),
            };
            let peer = self.peers[i].clone();
            self.send(peer, Message::RequestVote(request));
            assert(requests.subrange(0, i + 1) =~= requests.subrange(0, i as int).push(requests[i as int]));
            i = i + 1;
        }
        assert(requests.subrange(0, i as int) =~= requests);
    }

    /// Advance logical time by one tick.
    pub fn tick(&mut self)
        requires
            old(self).wf(),
            old(self)@.tick_resets_timer() ==> old(self)@.current_term < u64::MAX,
        ensures
            final(self).wf(),
            final(self)@ == (if old(self)@.tick_resets_timer() {
                old(self)@.tick().with_timeout(final(self)@.election_timeout)
            } else {
                old(self)@.tick()
            }),
            final(self).rng_seed() == old(self).rng_seed(),
            final(self).rng_drawn() == old(self).rng_drawn() + repeated(
                (old(self)@.config.election_timeout_min, old(self)@.config.election_timeout_max),
                old(self)@.tick_draws(),
            ),
            old(self)@.tick_resets_timer() ==> (old(self).rng_seed() matches Some(s)
                ==> final(self)@.election_timeout == seeded_draws(s, final(self).rng_drawn()).last()),
            old(self).rng_seed() matches Some(s) ==> (final(self)@, final(self).rng_drawn()) == seeded_tick(
                old(self)@,
                s,
                old(self).rng_drawn(),
            ),
    {
        let mut draws: u64 = 0;
        if self.role == Role::Leader {
            let hb = self.heartbeat_elapsed + 1;
            if hb >= self.config.heartbeat_ticks {
                self.heartbeat_elapsed = 0;
                self.broadcast_append();
            } else {
                self.heartbeat_elapsed = hb;
            }
        } else {
            let ee = self.election_elapsed + 1;
            if ee >= self.election_timeout {
                proof {
                    let a = NodeView { election_elapsed: ee, ..old(self)@ };
                    let b = NodeView { election_elapsed: 0, ..old(self)@ };
                    assert(NodeView { role: Role::Candidate, current_term: (a.current_term + 1) as u64, voted_for: Some(a.id), leader_id: None, votes: Set::empty().insert(a.id), election_elapsed: 0, ..a }
                        == NodeView { role: Role::Candidate, current_term: (b.current_term + 1) as u64, voted_for: Some(b.id), leader_id: None, votes: Set::empty().insert(b.id), election_elapsed: 0, ..b });
                }
                self.election_elapsed = 0;
                self.become_candidate(&mut draws);
            } else {
                self.election_elapsed = ee;
            }
        }
        self.finish_draws(draws);
    }
}


impl RaftNode {
    /// Propose a new command (leader only). Returns the assigned log index.
    pub fn propose(&mut self, command: Vec<u8>) -> (res: Result<u64, NotLeader>)
        requires
            old(self).wf(),
            old(self)@.log.last_index() + 1 < u64::MAX,
        ensures
            final(self).rng_seed() == old(self).rng_seed(),
            final(self).rng_drawn() == old(self).rng_drawn(),
            final(self).wf(),
            final(self)@ == old(self)@.propose(command@),
            match res {
                Ok(index) => old(self)@.role == Role::Leader && index == old(self)@.log.last_index() + 1,
                Err(e) => old(self)@.role != Role::Leader && opt_id_view(e.leader) == old(self)@.leader_id,
            },
    {
        if self.role != Role::Leader {
            let leader = match &self.leader_id {
                Some(l) => Some(l.clone()),
                None => None,
            };
            return Err(NotLeader { leader });
        }
        let ghost entry = EntryView { term: self.current_term, command: command@ };
        let mut batch: Vec<LogEntry> = Vec::new();
        batch.push(LogEntry { term: self.current_term, command });
        assert(entry_views(batch@) =~= seq![entry]);
        let index = self.log.append(batch);
        // Replicate immediately, and re-check commit in case we're alone.
        self.broadcast_append();
        self.advance_commit();
        Ok(index)
    }

    /// §5.4.1 — a candidate's log must be at least as up-to-date as ours.
    fn candidate_is_up_to_date(&self, last_index: u64, last_term: u64) -> (res: bool)
        requires
            self.wf(),
        ensures
            res == self@.candidate_is_up_to_date(last_index, last_term),
            res == (last_term > self@.log.last_term() || (last_term == self@.log.last_term() && last_index
                >= self@.log.last_index())),
    {
        let our_term = self.log.last_term();
        let our_index = self.log.last_index();
        last_term > our_term || (last_term == our_term && last_index >= our_index)
    }

    fn handle_request_vote(&mut self, m: RequestVote, draws: &mut u64)
        requires
            old(self).wf(),
            *old(draws) < 8,
        ensures
            final(self).rng == old(self).rng,
            final(self).wf(),
            final(self)@ == old(self)@.handle_request_vote(
                m.term,
                m.candidate_id@,
                m.last_log_index,
                m.last_log_term,
            ),
            final(self).peers@ == old(self).peers@,
            *final(draws) == *old(draws) + (if old(self)@.grants_vote(
                m.term,
                m.candidate_id@,
                m.last_log_index,
                m.last_log_term,
            ) {
                1int
            } else {
                0int
            }),
    {
        let mut granted = false;
        if m.term >= self.current_term {
            let can_vote = match &self.voted_for {
                None => true,
                Some(v) => *v == m.candidate_id,
            };
            if can_vote && self.candidate_is_up_to_date(m.last_log_index, m.last_log_term) {
                granted = true;
                self.voted_for = Some(m.candidate_id.clone());
                self.election_elapsed = 0;
                *draws = *draws + 1;
            }
        }
        let reply = RequestVoteReply {
            term: self.current_term,
            voter_id: self.id.clone(),
            vote_granted: granted,
        };
        self.send(m.candidate_id, Message::RequestVoteReply(reply));
    }

    fn handle_request_vote_reply(&mut self, m: RequestVoteReply)
        requires
            old(self).wf(),
        ensures
            final(self).rng == old(self).rng,
            final(self).wf(),
            final(self)@ == old(self)@.handle_request_vote_reply(m.term, m.voter_id@, m.vote_granted),
            final(self).peers@ == old(self).peers@,
    {
        if self.role != Role::Candidate || m.term != self.current_term {
            return;
        }
        if m.vote_granted {
            let count = self.votes.record(m.voter_id);
            if count >= self.majority() {
                self.become_leader();
            }
        }
    }

    /// Cheap divergence hint so the leader can back up faster than one index
    /// per round-trip: point it at the start of the conflicting region.
    fn conflict_hint(&self, prev_log_index: u64) -> (res: u64)
        requires
            self.wf(),
        ensures
            res == self@.conflict_hint(prev_log_index),
    {
        let last = self.log.last_index();
        if prev_log_index > last {
            last + 1
        } else {
            let first = self.log.first_index();
            if prev_log_index >= first {
                prev_log_index
            } else {
                first
            }
        }
    }

    fn reject_append(&mut self, leader_id: &str, conflict_index: u64)
        requires
            old(self).wf(),
        ensures
            final(self).rng == old(self).rng,
            final(self).wf(),
            final(self)@ == old(self)@.reject_append(leader_id@, conflict_index),
            final(self).peers@ == old(self).peers@,
    {
        let reply = AppendEntriesReply {
            term: self.current_term,
            follower_id: self.id.clone(),
            success: false,
            match_index: 0,
            conflict_index,
        };
        self.send(leader_id.to_owned(), Message::AppendEntriesReply(reply));
    }

    fn handle_append_entries(&mut self, m: AppendEntries, draws: &mut u64)
        requires
            old(self).wf(),
            *old(draws) < 8,
            m.prev_log_index + m.entries@.len() < u64::MAX,
            old(self)@.log.last_index() + m.entries@.len() < u64::MAX,
        ensures
            final(self).rng == old(self).rng,
            final(self).wf(),
            final(self)@ == old(self)@.handle_append_entries(
                m.term,
                m.leader_id@,
                m.prev_log_index,
                m.prev_log_term,
                entry_views(m.entries@),
                m.leader_commit,
            ),
            final(self).peers@ == old(self).peers@,
            *final(draws) == *old(draws) + (if m.term >= old(self)@.current_term {
                1int
            } else {
                0int
            }),
    {
        let AppendEntries { term, leader_id, prev_log_index, prev_log_term, entries, leader_commit } = m;
        // Stale leader — reject and advertise our term.
        if term < self.current_term {
            self.reject_append(leader_id.as_str(), 0);
            return;
        }
        // Valid leader for this term: (re)become a follower and defer to it.
        self.become_follower(term, Some(leader_id.clone()), draws);

        // Log-matching property (§5.3).
        if !self.log.matches(prev_log_index, prev_log_term) {
            let conflict = self.conflict_hint(prev_log_index);
            self.reject_append(leader_id.as_str(), conflict);
            return;
        }
        proof {
            super::log::lemma_merge_bound(self@.log, prev_log_index + 1, entry_views(entries@));
        }
        let last_new_index = self.log.splice(prev_log_index, entries);
        if leader_commit > self.commit_index {
            self.commit_index = if leader_commit <= last_new_index {
                leader_commit
            } else {
                last_new_index
            };
        }
        let reply = AppendEntriesReply {
            term: self.current_term,
            follower_id: self.id.clone(),
            success: true,
            match_index: last_new_index,
            conflict_index: 0,
        };
        self.send(leader_id, Message::AppendEntriesReply(reply));
    }

    fn handle_append_entries_reply(&mut self, from: NodeId, m: AppendEntriesReply)
        requires
            old(self).wf(),
            m.match_index < u64::MAX,
        ensures
            final(self).rng == old(self).rng,
            final(self).wf(),
            final(self)@ == old(self)@.handle_append_entries_reply(
                from@,
                m.term,
                m.success,
                m.match_index,
                m.conflict_index,
            ),
            final(self).peers@ == old(self).peers@,
    {
        if self.role != Role::Leader || m.term != self.current_term {
            return;
        }
        if m.success {
            self.progress.set_match_index(from.as_str(), m.match_index);
            self.progress.set_next_index(from.as_str(), m.match_index + 1);
            self.advance_commit();
        } else {
            let next = if m.conflict_index >= 1 {
                m.conflict_index
            } else {
                1
            };
            self.progress.set_next_index(from.as_str(), next);
            self.send_append(from.as_str());
        }
    }

    fn handle_install_snapshot(&mut self, m: InstallSnapshot, draws: &mut u64)
        requires
            old(self).wf(),
            *old(draws) < 8,
            m.last_included_index < u64::MAX,
        ensures
            final(self).rng == old(self).rng,
            final(self).wf(),
            final(self)@ == old(self)@.handle_install_snapshot(
                m.term,
                m.leader_id@,
                m.last_included_index,
                m.last_included_term,
                pairs_view(m.data@),
            ),
            final(self).peers@ == old(self).peers@,
            *final(draws) == *old(draws) + (if m.term >= old(self)@.current_term {
                1int
            } else {
                0int
            }),
    {
        if m.term < self.current_term {
            return;
        }
        let InstallSnapshot { term, leader_id, last_included_index, last_included_term, data } = m;
        self.become_follower(term, Some(leader_id.clone()), draws);
        self.log.install_snapshot(last_included_index, last_included_term);
        self.commit_index = last_included_index;
        self.last_applied = last_included_index;
        let ghost before = self@.committed;
        let ghost snap = CommittedView::Snapshot(pairs_view(data@));
        self.committed.push(Committed::Snapshot(data));
        assert(self@.committed =~= before.push(snap));
        let reply = InstallSnapshotReply { term: self.current_term, follower_id: self.id.clone() };
        self.send(leader_id, Message::InstallSnapshotReply(reply));
    }

    fn handle_install_snapshot_reply(&mut self, from: NodeId, m: InstallSnapshotReply)
        requires
            old(self).wf(),
        ensures
            final(self).rng == old(self).rng,
            final(self).wf(),
            final(self)@ == old(self)@.handle_install_snapshot_reply(from@, m.term),
            final(self).peers@ == old(self).peers@,
    {
        if self.role != Role::Leader || m.term != self.current_term {
            return;
        }
        let index = self.log.snapshot_index();
        self.progress.set_match_index(from.as_str(), index);
        self.progress.set_next_index(from.as_str(), index + 1);
    }

    /// Handle an inbound message from a peer.
    pub fn step(&mut self, from: NodeId, message: Message)
        requires
            old(self).wf(),
            old(self)@.accepts(message@),
        ensures
            final(self).wf(),
            final(self)@ == (if old(self)@.step_resets_timer(message@) {
                old(self)@.step(from@, message@).with_timeout(final(self)@.election_timeout)
            } else {
                old(self)@.step(from@, message@)
            }),
            final(self).rng_seed() == old(self).rng_seed(),
            final(self).rng_drawn() == old(self).rng_drawn() + repeated(
                (old(self)@.config.election_timeout_min, old(self)@.config.election_timeout_max),
                old(self)@.step_draws(message@),
            ),
            old(self)@.step_resets_timer(message@) ==> (old(self).rng_seed() matches Some(s)
                ==> final(self)@.election_timeout == seeded_draws(s, final(self).rng_drawn()).last()),
            old(self).rng_seed() matches Some(s) ==> (final(self)@, final(self).rng_drawn()) == seeded_step(
                old(self)@,
                s,
                old(self).rng_drawn(),
                from@,
                message@,
            ),
    {
        let mut draws: u64 = 0;
        // Universal rule: any message with a higher term forces us to step down.
        let term = message.term();
        if term > self.current_term {
            self.become_follower(term, None, &mut draws);
        }
        match message {
            Message::RequestVote(m) => self.handle_request_vote(m, &mut draws),
            Message::RequestVoteReply(m) => self.handle_request_vote_reply(m),
            Message::AppendEntries(m) => self.handle_append_entries(m, &mut draws),
            Message::AppendEntriesReply(m) => self.handle_append_entries_reply(from, m),
            Message::InstallSnapshot(m) => self.handle_install_snapshot(m, &mut draws),
            Message::InstallSnapshotReply(m) => self.handle_install_snapshot_reply(from, m),
        }
        self.finish_draws(draws);
    }

    fn apply_committed(&mut self)
        requires
            old(self).wf(),
        ensures
            final(self).rng == old(self).rng,
            final(self).wf(),
            final(self)@ == old(self)@.apply_committed(),
    {
        let ghost start = self@;
        assert(start.committed + newly_committed(start.log, start.last_applied as int, start.last_applied as int) =~= start.committed);
        while self.last_applied < self.commit_index
            invariant
                self.rng == old(self).rng,
                self.wf(),
                start.last_applied <= self.last_applied,
                start.last_applied < start.commit_index ==> self.last_applied <= start.commit_index,
                start.last_applied >= start.commit_index ==> self.last_applied == start.last_applied,
                self@ == (NodeView {
                    committed: start.committed + newly_committed(
                        start.log,
                        start.last_applied as int,
                        self.last_applied as int,
                    ),
                    last_applied: self.last_applied,
                    ..start
                }),
            decreases self.commit_index - self.last_applied,
        {
            self.last_applied = self.last_applied + 1;
            let ghost before = self@.committed;
            let la = self.last_applied;
            match self.log.get(la) {
                Some(entry) => {
                    if entry.command.len() > 0 {
                        let command = entry.command.clone();
                        assert(command@ =~= entry.command@);
                        self.committed.push(Committed::Command { index: la, command });
                        assert(self@.committed =~= before.push(CommittedView::Command { index: la, command: entry@.command }));
                    }
                },
                None => {},
            }
            assert(self@.committed =~= start.committed + newly_committed(start.log, start.last_applied as int, la as int));
        }
        proof {
            if start.last_applied < start.commit_index {
                assert(self@ == (NodeView {
                    committed: start.committed + newly_committed(start.log, start.last_applied as int, start.commit_index as int),
                    last_applied: start.commit_index,
                    ..start
                }));
            } else {
                assert(start.committed + newly_committed(start.log, start.last_applied as int, start.last_applied as int) =~= start.committed);
                assert(self@ == start);
            }
        }
        self.maybe_compact();
    }

    fn maybe_compact(&mut self)
        requires
            old(self).wf(),
        ensures
            final(self).rng == old(self).rng,
            final(self).wf(),
            final(self)@ == old(self)@.maybe_compact(),
    {
        let snapshot_index = self.log.snapshot_index();
        let since = if self.last_applied >= snapshot_index {
            self.last_applied - snapshot_index
        } else {
            0
        };
        if since >= self.config.snapshot_threshold {
            self.log.compact(self.last_applied);
        }
    }

    /// Drain everything produced since the last call.
    pub fn take_ready(&mut self) -> (res: Ready)
        requires
            old(self).wf(),
        ensures
            final(self).rng_seed() == old(self).rng_seed(),
            final(self).rng_drawn() == old(self).rng_drawn(),
            final(self).wf(),
            final(self)@ == old(self)@.drained(),
            envelope_views(res.messages@) == old(self)@.apply_committed().outgoing,
            committed_views(res.committed@) == old(self)@.apply_committed().committed,
    {
        self.apply_committed();
        let mut messages: Vec<Envelope> = Vec::new();
        let mut committed: Vec<Committed> = Vec::new();
        std::mem::swap(&mut messages, &mut self.outgoing);
        std::mem::swap(&mut committed, &mut self.committed);
        assert(self@.outgoing =~= Seq::<EnvelopeView>::empty());
        assert(self@.committed =~= Seq::<CommittedView>::empty());
        Ready { messages, committed }
    }
}

} // verus!
