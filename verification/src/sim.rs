//! Deterministic simulation testing.
//!
//! This drives a whole cluster of [`RaftNode`]s over a fully in-memory,
//! synchronous "network". Because the consensus core is pure and the message
//! bus here is deterministic, tests can reproduce elections, partitions, and
//! crashes exactly.
//!
//! Time is modelled as discrete steps. In each step every live node advances
//! one tick, its outputs are drained and applied, and the emitted messages are
//! delivered to reachable peers (arriving on the next step, i.e. one network
//! hop per step).
//!
//! The simulation keeps the commands it is given; what it replicates through
//! the log is each command's position in that list, as decimal text, and a
//! committed position is applied as the command it names.

use vstd::prelude::*;

use crate::apply::{applied, WriteCommand};
use crate::decimal::{append_decimal, decimal, decimal_text, parse_i64, parse_i64_text};
use crate::election::{
    lemma_initial_safe, lemma_propose_keeps_safety, lemma_same_members_keep_safety, lemma_step_keeps_safety, safe,
};
use crate::raft::message::{Message, MessageView, NodeId};
use crate::raft::log::LogView;
use crate::raft::model::{CommittedView, EnvelopeView, NodeView};
use crate::raft::node::{
    committed_views, envelope_views, seeded_draws, seeded_step, seeded_tick, Committed, Envelope, RaftConfig, RaftNode,
    Ready,
};
use crate::raft::state::id_views;
use crate::raft::state::Role;
use crate::storage::engine::{pairs_map, StorageEngine};
use crate::storage::memory::MemoryEngine;
use crate::text::ascii_chars;

verus! {

/// The id of the `i`-th simulated node: `n0`, `n1`, ...
pub open spec fn sim_id(i: int) -> Seq<char> {
    "n"@ + ascii_chars(decimal(i as nat))
}

/// The position a log entry names among `count` proposals: its decimal
/// text, when that is a position in range.
pub open spec fn entry_position(entry: Seq<u8>, count: nat) -> Option<int> {
    match parse_i64_text(entry) {
        Some(v) => if 0 <= v < count {
            Some(v as int)
        } else {
            None
        },
        None => None,
    }
}

/// Whether a command's reply fits an `i64`: a delete names at most
/// `i64::MAX` keys.
pub open spec fn reply_fits(c: WriteCommand) -> bool {
    c matches WriteCommand::Del { keys } ==> keys@.len() <= i64::MAX
}

/// A store after applying a committed output: a command entry applies the
/// proposal it names (when that names one and its reply fits), a snapshot
/// replaces everything.
pub open spec fn store_after(
    store: Map<Seq<char>, Seq<u8>>,
    committed: CommittedView,
    commands: Seq<WriteCommand>,
) -> Map<Seq<char>, Seq<u8>> {
    match committed {
        CommittedView::Command { command, .. } => match entry_position(command, commands.len()) {
            Some(k) => if reply_fits(commands[k]) {
                applied(store, commands[k]@)
            } else {
                store
            },
            None => store,
        },
        CommittedView::Snapshot(data) => pairs_map(data),
    }
}

/// A store after committed outputs, applied in order.
pub open spec fn stores_after(
    store: Map<Seq<char>, Seq<u8>>,
    committed: Seq<CommittedView>,
    commands: Seq<WriteCommand>,
) -> Map<Seq<char>, Seq<u8>>
    decreases committed.len(),
{
    if committed.len() == 0 {
        store
    } else {
        store_after(stores_after(store, committed.drop_last(), commands), committed.last(), commands)
    }
}

/// The first position of `id` among `ids`, if any.
pub open spec fn position_of(ids: Seq<Seq<char>>, id: Seq<char>) -> Option<int> {
    if exists|i: int| 0 <= i < ids.len() && ids[i] == id {
        Some(choose|i: int| 0 <= i < ids.len() && ids[i] == id && forall|j: int| 0 <= j < i ==> ids[j] != id)
    } else {
        None
    }
}

/// A position holding `id`, before which `id` does not occur, is the first.
proof fn lemma_position_of(ids: Seq<Seq<char>>, id: Seq<char>, i: int)
    requires
        0 <= i < ids.len(),
        ids[i] == id,
        forall|j: int| 0 <= j < i ==> ids[j] != id,
    ensures
        position_of(ids, id) == Some(i),
{
    assert(exists|c: int| 0 <= c < ids.len() && ids[c] == id);
    let c = choose|c: int| 0 <= c < ids.len() && ids[c] == id && forall|j: int| 0 <= j < c ==> ids[j] != id;
    assert(0 <= i < ids.len() && ids[i] == id && forall|j: int| 0 <= j < i ==> ids[j] != id);
    assert(0 <= c < ids.len() && ids[c] == id && forall|j: int| 0 <= j < c ==> ids[j] != id);
    if c < i {
        assert(ids[c] != id);
    } else if c > i {
        assert(ids[i] != id);
    }
}

/// A message on the simulated bus: addressee's position, sender's position,
/// message.
pub type BusItem = (int, int, MessageView);

/// Envelopes sent by member `from`, each routed to its addressee's position;
/// an envelope to an unknown id is dropped.
pub open spec fn routed(envs: Seq<EnvelopeView>, ids: Seq<Seq<char>>, from: int) -> Seq<BusItem>
    decreases envs.len(),
{
    if envs.len() == 0 {
        Seq::empty()
    } else {
        routed(envs.drop_last(), ids, from) + match position_of(ids, envs.last().to) {
            Some(k) => seq![(k, from, envs.last().message)],
            None => Seq::empty(),
        }
    }
}

/// What the first `k` members send when drained (the live ones send).
pub open spec fn bus_of(nodes: Seq<NodeView>, alive: Seq<bool>, ids: Seq<Seq<char>>, k: int) -> Seq<BusItem>
    decreases k,
{
    if k <= 0 {
        Seq::empty()
    } else {
        bus_of(nodes, alive, ids, k - 1) + if alive[k - 1] {
            routed(nodes[k - 1].apply_committed().outgoing, ids, k - 1)
        } else {
            Seq::empty()
        }
    }
}

/// A member after its tick: live members whose term can still rise tick.
pub open spec fn ticked(v: NodeView, seed: u64, drawn: Seq<(u64, u64)>, alive: bool) -> (NodeView, Seq<(u64, u64)>) {
    if alive && v.current_term < u64::MAX {
        seeded_tick(v, seed, drawn)
    } else {
        (v, drawn)
    }
}

/// The members after the bus is delivered in order: a message reaches its
/// addressee when both ends are live and connected and the addressee can
/// handle its indices; otherwise it is dropped.
pub open spec fn delivered(
    nodes: Seq<NodeView>,
    drawn: Seq<Seq<(u64, u64)>>,
    seeds: Seq<u64>,
    alive: Seq<bool>,
    connected: Seq<bool>,
    ids: Seq<Seq<char>>,
    bus: Seq<BusItem>,
) -> (Seq<NodeView>, Seq<Seq<(u64, u64)>>)
    decreases bus.len(),
{
    if bus.len() == 0 {
        (nodes, drawn)
    } else {
        let (ns, ds) = delivered(nodes, drawn, seeds, alive, connected, ids, bus.drop_last());
        let (to, from, m) = bus.last();
        if 0 <= to < ns.len() && 0 <= from < ns.len() && alive[from] && alive[to] && connected[from]
            && connected[to] && ns[to].accepts(m) {
            let (v, d) = seeded_step(ns[to], seeds[to], ds[to], ids[from], m);
            (ns.update(to, v), ds.update(to, d))
        } else {
            (ns, ds)
        }
    }
}

/// The bus as values.
pub open spec fn bus_view(b: Seq<(usize, usize, Message)>) -> Seq<BusItem> {
    Seq::new(b.len(), |k: int| (b[k].0 as int, b[k].1 as int, b[k].2@))
}

/// The ids of an `n`-member cluster, in member order.
pub open spec fn sim_ids(n: nat) -> Seq<Seq<char>> {
    Seq::new(n, |j: int| sim_id(j))
}

/// The ids among `ids` other than `me`, in order.
pub open spec fn others(ids: Seq<Seq<char>>, me: Seq<char>) -> Seq<Seq<char>>
    decreases ids.len(),
{
    if ids.len() == 0 {
        Seq::empty()
    } else {
        others(ids.drop_last(), me) + if ids.last() != me {
            seq![ids.last()]
        } else {
            Seq::empty()
        }
    }
}

/// The configuration of member `i` of a cluster built from `seed`.
pub open spec fn sim_config(seed: u64, i: int) -> RaftConfig {
    RaftConfig {
        heartbeat_ticks: 1,
        election_timeout_min: 5,
        election_timeout_max: 10,
        snapshot_threshold: 8,
        seed: Some((seed + i) as u64),
    }
}

/// Member `i` of a fresh `n`-member cluster built from `seed`: a follower
/// at term 0 with an empty log, whose election timeout is the first draw of
/// its seed.
pub open spec fn sim_member(n: nat, seed: u64, i: int) -> NodeView {
    NodeView {
        id: sim_id(i),
        peers: others(sim_ids(n), sim_id(i)),
        config: sim_config(seed, i),
        role: Role::Follower,
        leader_id: None,
        current_term: 0,
        voted_for: None,
        log: LogView { entries: Seq::empty(), snapshot_index: 0, snapshot_term: 0 },
        commit_index: 0,
        last_applied: 0,
        next_index: Map::empty(),
        match_index: Map::empty(),
        votes: Set::empty(),
        election_elapsed: 0,
        heartbeat_elapsed: 0,
        election_timeout: seeded_draws((seed + i) as u64, seq![(5u64, 10u64)]).last(),
        outgoing: Seq::empty(),
        committed: Seq::empty(),
    }
}

/// The whole simulation as values. Per member: its state, the ranges drawn
/// from its generator and the generator's seed, its applied store, whether
/// it runs and whether it reaches the network, and its id. Then the
/// commands proposed so far and the steps taken.
pub struct SimState {
    pub nodes: Seq<NodeView>,
    pub drawn: Seq<Seq<(u64, u64)>>,
    pub seeds: Seq<u64>,
    pub stores: Seq<Map<Seq<char>, Seq<u8>>>,
    pub alive: Seq<bool>,
    pub connected: Seq<bool>,
    pub ids: Seq<Seq<char>>,
    pub commands: Seq<WriteCommand>,
    pub steps: int,
}

impl SimState {
    /// The number of members.
    pub open spec fn members(self) -> nat {
        self.nodes.len()
    }

    /// A fresh `n`-member cluster built from `seed`: member `i` is seeded
    /// with `seed + i`, runs and reaches the network, and has applied
    /// nothing.
    pub open spec fn initial(n: nat, seed: u64) -> SimState {
        SimState {
            nodes: Seq::new(n, |i: int| sim_member(n, seed, i)),
            drawn: Seq::new(n, |i: int| seq![(5u64, 10u64)]),
            seeds: Seq::new(n, |i: int| (seed + i) as u64),
            stores: Seq::new(n, |i: int| Map::empty()),
            alive: Seq::new(n, |i: int| true),
            connected: Seq::new(n, |i: int| true),
            ids: sim_ids(n),
            commands: Seq::empty(),
            steps: 0,
        }
    }

    /// Every live member whose term can still rise has ticked.
    pub open spec fn after_tick(self) -> SimState {
        SimState {
            nodes: Seq::new(
                self.members(),
                |j: int| ticked(self.nodes[j], self.seeds[j], self.drawn[j], self.alive[j]).0,
            ),
            drawn: Seq::new(
                self.members(),
                |j: int| ticked(self.nodes[j], self.seeds[j], self.drawn[j], self.alive[j]).1,
            ),
            ..self
        }
    }

    /// What the live members send when drained, routed, in member order.
    pub open spec fn outbox(self) -> Seq<BusItem> {
        bus_of(self.nodes, self.alive, self.ids, self.members() as int)
    }

    /// Every live member has been drained and its store has applied what it
    /// committed.
    pub open spec fn after_drain(self) -> SimState {
        SimState {
            nodes: Seq::new(
                self.members(),
                |j: int|
                    if self.alive[j] {
                        self.nodes[j].drained()
                    } else {
                        self.nodes[j]
                    },
            ),
            stores: Seq::new(
                self.members(),
                |j: int|
                    if self.alive[j] {
                        stores_after(self.stores[j], self.nodes[j].apply_committed().committed, self.commands)
                    } else {
                        self.stores[j]
                    },
            ),
            ..self
        }
    }

    /// The messages of `bus` have been delivered in order.
    pub open spec fn after_delivery(self, bus: Seq<BusItem>) -> SimState {
        let r = delivered(self.nodes, self.drawn, self.seeds, self.alive, self.connected, self.ids, bus);
        SimState { nodes: r.0, drawn: r.1, ..self }
    }

    /// One step: the live members tick, are drained, and what they sent is
    /// delivered.
    pub open spec fn stepped(self) -> SimState {
        let t = self.after_tick();
        SimState { steps: self.steps + 1, ..t.after_drain().after_delivery(t.outbox()) }
    }

    /// `k` steps.
    pub open spec fn run_steps(self, k: nat) -> SimState
        decreases k,
    {
        if k == 0 {
            self
        } else {
            self.run_steps((k - 1) as nat).stepped()
        }
    }
}

impl SimState {
    /// One entry per member in every per-member list.
    pub open spec fn wf(self) -> bool {
        &&& self.drawn.len() == self.members()
        &&& self.seeds.len() == self.members()
        &&& self.stores.len() == self.members()
        &&& self.alive.len() == self.members()
        &&& self.connected.len() == self.members()
        &&& self.ids.len() == self.members()
    }
}

/// Delivering a bus keeps one entry per member, never lowers a member's
/// term, and leaves a member that does not run as it was.
proof fn lemma_delivered_member(
    nodes: Seq<NodeView>,
    drawn: Seq<Seq<(u64, u64)>>,
    seeds: Seq<u64>,
    alive: Seq<bool>,
    connected: Seq<bool>,
    ids: Seq<Seq<char>>,
    bus: Seq<BusItem>,
    j: int,
)
    requires
        0 <= j < nodes.len(),
        drawn.len() == nodes.len(),
    ensures
        delivered(nodes, drawn, seeds, alive, connected, ids, bus).0.len() == nodes.len(),
        delivered(nodes, drawn, seeds, alive, connected, ids, bus).1.len() == drawn.len(),
        delivered(nodes, drawn, seeds, alive, connected, ids, bus).0[j].current_term >= nodes[j].current_term,
        !alive[j] ==> delivered(nodes, drawn, seeds, alive, connected, ids, bus).0[j] == nodes[j]
            && delivered(nodes, drawn, seeds, alive, connected, ids, bus).1[j] == drawn[j],
    decreases bus.len(),
{
    if bus.len() > 0 {
        lemma_delivered_member(nodes, drawn, seeds, alive, connected, ids, bus.drop_last(), j);
        let (ns, ds) = delivered(nodes, drawn, seeds, alive, connected, ids, bus.drop_last());
        let (to, from, m) = bus.last();
        crate::raft::laws::lemma_step_term_monotonic(ns[to], ids[from], m);
    }
}

/// A step never lowers a member's term, and a member that does not run
/// keeps its state, its generator and its store.
pub proof fn lemma_step_keeps_terms_and_crashed(s: SimState, j: int)
    requires
        s.wf(),
        0 <= j < s.members(),
    ensures
        s.stepped().members() == s.members(),
        s.stepped().nodes[j].current_term >= s.nodes[j].current_term,
        !s.alive[j] ==> s.stepped().nodes[j] == s.nodes[j] && s.stepped().drawn[j] == s.drawn[j]
            && s.stepped().stores[j] == s.stores[j],
{
    let t = s.after_tick();
    let d = t.after_drain();
    if s.alive[j] && s.nodes[j].current_term < u64::MAX {
        crate::raft::laws::lemma_tick_term_monotonic(s.nodes[j]);
    }
    assert(t.nodes[j].current_term >= s.nodes[j].current_term);
    assert(d.nodes[j].current_term == t.nodes[j].current_term);
    lemma_delivered_member(d.nodes, d.drawn, d.seeds, d.alive, d.connected, d.ids, t.outbox(), j);
}

/// An in-memory cluster used for deterministic testing.
pub struct SimCluster {
    nodes: Vec<RaftNode>,
    stores: Vec<MemoryEngine>,
    /// Whether a node is running (a crashed node neither ticks nor receives).
    alive: Vec<bool>,
    /// Whether a node can reach the network (partition modelling).
    connected: Vec<bool>,
    ids: Vec<NodeId>,
    step: u64,
    /// The commands proposed so far; the log carries their positions.
    commands: Vec<WriteCommand>,
}

impl View for SimCluster {
    type V = SimState;

    closed spec fn view(&self) -> SimState {
        SimState {
            nodes: Seq::new(self.nodes@.len(), |j: int| self.nodes@[j]@),
            drawn: Seq::new(self.nodes@.len(), |j: int| self.nodes@[j].rng_drawn()),
            seeds: Seq::new(self.nodes@.len(), |j: int| self.nodes@[j].rng_seed()->0),
            stores: Seq::new(self.stores@.len(), |j: int| self.stores@[j]@),
            alive: self.alive@,
            connected: self.connected@,
            ids: Seq::new(self.ids@.len(), |j: int| self.ids@[j]@),
            commands: self.commands@,
            steps: self.step as int,
        }
    }
}

impl SimCluster {
    /// The invariant: one node, store and flag pair per member, every node
    /// and store well formed, every generator seeded.
    pub closed spec fn wf(&self) -> bool {
        &&& self.nodes@.len() == self.stores@.len()
        &&& self.nodes@.len() == self.alive@.len()
        &&& self.nodes@.len() == self.connected@.len()
        &&& self.nodes@.len() == self.ids@.len()
        &&& forall|i: int| 0 <= i < self.nodes@.len() ==> #[trigger] self.nodes@[i].wf()
        &&& forall|i: int| 0 <= i < self.stores@.len() ==> #[trigger] self.stores@[i].well_formed()
        &&& forall|i: int| 0 <= i < self.nodes@.len() ==> #[trigger] self.nodes@[i].rng_seed() is Some
    }

    /// The number of members.
    pub closed spec fn members(&self) -> nat {
        self.nodes@.len()
    }

    /// The state of member `i`.
    pub closed spec fn node(&self, i: int) -> NodeView {
        self.nodes@[i]@
    }

    /// What member `i` has applied.
    pub closed spec fn store(&self, i: int) -> Map<Seq<char>, Seq<u8>> {
        self.stores@[i]@
    }

    /// Whether member `i` runs.
    pub closed spec fn is_alive(&self, i: int) -> bool {
        self.alive@[i]
    }

    /// Whether member `i` reaches the network.
    pub closed spec fn is_connected(&self, i: int) -> bool {
        self.connected@[i]
    }

    /// The id of member `i`.
    pub closed spec fn id_of(&self, i: int) -> Seq<char> {
        self.ids@[i]@
    }

    /// The steps taken so far.
    pub closed spec fn steps(&self) -> u64 {
        self.step
    }

    /// The number of commands proposed so far.
    pub closed spec fn proposals(&self) -> nat {
        self.commands@.len()
    }

    /// The accessors agree with the view.
    pub proof fn lemma_view(&self)
        requires
            self.wf(),
        ensures
            self@.wf(),
            self@.members() == self.members(),
            self@.stores.len() == self.members(),
            self@.alive.len() == self.members(),
            self@.connected.len() == self.members(),
            self@.ids.len() == self.members(),
            self@.steps == self.steps(),
            self@.commands.len() == self.proposals(),
            forall|i: int| 0 <= i < self.members() ==> #[trigger] self@.nodes[i] == self.node(i),
            forall|i: int| 0 <= i < self.members() ==> #[trigger] self@.stores[i] == self.store(i),
            forall|i: int| 0 <= i < self.members() ==> #[trigger] self@.alive[i] == self.is_alive(i),
            forall|i: int| 0 <= i < self.members() ==> #[trigger] self@.connected[i] == self.is_connected(i),
            forall|i: int| 0 <= i < self.members() ==> #[trigger] self@.ids[i] == self.id_of(i),
    {
    }

    /// Member `i` is a live leader whose term no live member exceeds.
    pub open spec fn leads_at_top(&self, i: int) -> bool {
        &&& 0 <= i < self.members()
        &&& self.is_alive(i)
        &&& self.node(i).role == Role::Leader
        &&& forall|j: int| 0 <= j < self.members() && self.is_alive(j) ==> #[trigger] self.node(j).current_term
            <= self.node(i).current_term
    }

    /// The id text of member `i`.
    fn make_id(i: usize) -> (res: String)
        ensures
            res@ == sim_id(i as int),
    {
        let mut s = String::from_str("n");
        append_decimal(&mut s, i as u64);
        s
    }

    /// Build an `n`-node cluster with a fixed RNG seed for reproducibility.
    #[verifier::spinoff_prover]
    pub fn new(n: usize, seed: u64) -> (res: Self)
        requires
            n + 1 < usize::MAX,
            seed + n <= u64::MAX + 1,
        ensures
            res.wf(),
            res.members() == n,
            res@ == SimState::initial(n as nat, seed),
            safe(res@),
    {
        let mut ids: Vec<NodeId> = Vec::new();
        let mut i: usize = 0;
        while i < n
            invariant
                i <= n,
                ids@.len() == i,
                forall|j: int| 0 <= j < i ==> #[trigger] ids@[j]@ == sim_id(j),
            decreases n - i,
        {
            ids.push(Self::make_id(i));
            i = i + 1;
        }
        let ghost all_ids = sim_ids(n as nat);
        let mut nodes: Vec<RaftNode> = Vec::new();
        let mut stores: Vec<MemoryEngine> = Vec::new();
        let mut alive: Vec<bool> = Vec::new();
        let mut connected: Vec<bool> = Vec::new();
        let mut i: usize = 0;
        while i < n
            invariant
                i <= n,
                n + 1 < usize::MAX,
                seed + n <= u64::MAX + 1,
                all_ids == sim_ids(n as nat),
                ids@.len() == n,
                forall|j: int| 0 <= j < n ==> #[trigger] ids@[j]@ == sim_id(j),
                nodes@.len() == i,
                stores@.len() == i,
                alive@.len() == i,
                connected@.len() == i,
                forall|j: int|
                    #![trigger nodes@[j]]
                    0 <= j < i ==> nodes@[j].wf() && nodes@[j]@ == sim_member(n as nat, seed, j)
                        && nodes@[j].rng_seed() == Some((seed + j) as u64) && nodes@[j].rng_drawn() == seq![
                        (5u64, 10u64),
                    ],
                forall|j: int|
                    #![trigger stores@[j]]
                    0 <= j < i ==> stores@[j].well_formed() && stores@[j]@ == Map::<Seq<char>, Seq<u8>>::empty(),
                forall|j: int| 0 <= j < i ==> #[trigger] alive@[j] && connected@[j],
            decreases n - i,
        {
            let mut peers: Vec<NodeId> = Vec::new();
            let mut j: usize = 0;
            while j < n
                invariant
                    j <= n,
                    i < n,
                    ids@.len() == n,
                    all_ids == sim_ids(n as nat),
                    forall|k: int| 0 <= k < n ==> #[trigger] ids@[k]@ == sim_id(k),
                    peers@.len() <= j,
                    id_views(peers@) == others(all_ids.take(j as int), sim_id(i as int)),
                decreases n - j,
            {
                let ghost pre = peers@;
                assert(all_ids.take(j + 1).drop_last() =~= all_ids.take(j as int));
                assert(all_ids.take(j + 1).last() == ids@[j as int]@);
                if ids[j] != ids[i] {
                    peers.push(ids[j].clone());
                    assert(id_views(peers@) =~= id_views(pre) + seq![ids@[j as int]@]);
                } else {
                    assert(ids@[j as int]@ == sim_id(i as int));
                }
                j = j + 1;
            }
            assert(all_ids.take(n as int) =~= all_ids);
            let config = RaftConfig {
                heartbeat_ticks: 1,
                election_timeout_min: 5,
                election_timeout_max: 10,
                snapshot_threshold: 8,
                // Distinct seeds so election timeouts diverge and split votes
                // resolve.
                seed: Some(seed + i as u64),
            };
            assert(config == sim_config(seed, i as int));
            let node = RaftNode::new(ids[i].as_str(), peers, config);
            let store = MemoryEngine::new();
            assert(node@ == sim_member(n as nat, seed, i as int));
            let ghost pre_nodes = nodes@;
            let ghost pre_stores = stores@;
            let ghost pre_alive = alive@;
            let ghost pre_connected = connected@;
            nodes.push(node);
            stores.push(store);
            alive.push(true);
            connected.push(true);
            proof {
                assert forall|j: int| #![trigger nodes@[j]] 0 <= j < i + 1 implies nodes@[j].wf() && nodes@[j]@
                    == sim_member(n as nat, seed, j) && nodes@[j].rng_seed() == Some((seed + j) as u64)
                    && nodes@[j].rng_drawn() == seq![(5u64, 10u64)] by {
                    if j < i {
                        assert(nodes@[j] == pre_nodes[j]);
                    }
                }
                assert forall|j: int| #![trigger stores@[j]] 0 <= j < i + 1 implies stores@[j].well_formed()
                    && stores@[j]@ == Map::<Seq<char>, Seq<u8>>::empty() by {
                    if j < i {
                        assert(stores@[j] == pre_stores[j]);
                    }
                }
                assert forall|j: int| 0 <= j < i + 1 implies #[trigger] alive@[j] && connected@[j] by {
                    if j < i {
                        assert(alive@[j] == pre_alive[j]);
                        assert(connected@[j] == pre_connected[j]);
                    }
                }
            }
            i = i + 1;
        }
        let res = SimCluster { nodes, stores, alive, connected, ids, step: 0, commands: Vec::new() };
        proof {
            let s = SimState::initial(n as nat, seed);
            assert(res@.nodes =~= s.nodes);
            assert(res@.drawn =~= s.drawn);
            assert(res@.seeds =~= s.seeds);
            assert(res@.stores =~= s.stores);
            assert(res@.alive =~= s.alive);
            assert(res@.connected =~= s.connected);
            assert(res@.ids =~= s.ids);
            assert(res@.commands =~= s.commands);
            lemma_initial_safe(n as nat, seed);
        }
        res
    }

    /// Whether a message from `from` can reach `to`: both run and both are
    /// on the network.
    pub fn deliverable(&self, from: usize, to: usize) -> (res: bool)
        requires
            self.wf(),
            from < self.members(),
            to < self.members(),
        ensures
            res == (self.is_alive(from as int) && self.is_alive(to as int) && self.is_connected(from as int)
                && self.is_connected(to as int)),
    {
        self.alive[from] && self.alive[to] && self.connected[from] && self.connected[to]
    }

    /// The first member with id `id`, if any.
    fn index_of(&self, id: &String) -> (res: Option<usize>)
        requires
            self.wf(),
        ensures
            res matches Some(i) ==> i < self.members(),
            match res {
                Some(i) => position_of(self@.ids, id@) == Some(i as int),
                None => position_of(self@.ids, id@) is None,
            },
    {
        let mut i: usize = 0;
        while i < self.ids.len()
            invariant
                self.wf(),
                i <= self.ids@.len(),
                forall|j: int| 0 <= j < i ==> #[trigger] self@.ids[j] != id@,
            decreases self.ids.len() - i,
        {
            if self.ids[i] == *id {
                proof {
                    lemma_position_of(self@.ids, id@, i as int);
                }
                return Some(i);
            }
            i = i + 1;
        }
        None
    }

    /// The position of the command a log entry names.
    fn command_at(&self, entry: &Vec<u8>) -> (res: Option<usize>)
        ensures
            match entry_position(entry@, self.commands@.len()) {
                Some(k) => res matches Some(r) && r == k,
                None => res is None,
            },
    {
        match parse_i64(entry.as_slice()) {
            Some(v) => {
                if v >= 0 && (v as u64) < (self.commands.len() as u64) {
                    Some(v as usize)
                } else {
                    None
                }
            },
            None => None,
        }
    }

    /// Apply a committed output to member `node`'s store.
    fn apply(&mut self, node: usize, committed: Committed)
        requires
            old(self).wf(),
            node < old(self).members(),
        ensures
            final(self).wf(),
            final(self).nodes@ == old(self).nodes@,
            final(self).alive@ == old(self).alive@,
            final(self).connected@ == old(self).connected@,
            final(self).ids@ == old(self).ids@,
            final(self).step == old(self).step,
            final(self).commands@ == old(self).commands@,
            final(self).stores@.len() == old(self).stores@.len(),
            forall|i: int| 0 <= i < final(self).stores@.len() && i != node ==> #[trigger] final(self).stores@[i]
                == old(self).stores@[i],
            final(self).stores@[node as int]@ == store_after(
                old(self).stores@[node as int]@,
                committed@,
                old(self).commands@,
            ),
    {
        let ghost view = committed@;
        let ghost before = self.stores@[node as int]@;
        match committed {
            Committed::Command { command, .. } => {
                assert(view matches CommittedView::Command { command: c, .. } && c == command@);
                match self.command_at(&command) {
                    Some(k) => {
                        assert(entry_position(command@, self.commands@.len()) == Some(k as int));
                        if self.commands[k].reply_fits() {
                            self.commands[k].apply(&mut self.stores[node]);
                            assert(self.stores@[node as int]@ == applied(before, self.commands@[k as int]@));
                        } else {
                            assert(!reply_fits(self.commands@[k as int]));
                        }
                    },
                    None => {
                        assert(entry_position(command@, self.commands@.len()) is None);
                    },
                }
                assert(self.stores@[node as int]@ == store_after(before, view, self.commands@));
            },
            Committed::Snapshot(data) => self.stores[node].restore(data),
        }
    }

    /// Apply committed outputs, in order, to member `node`'s store.
    #[verifier::spinoff_prover]
    fn apply_all(&mut self, node: usize, committed: Vec<Committed>)
        requires
            old(self).wf(),
            node < old(self).members(),
        ensures
            final(self).wf(),
            final(self).nodes@ == old(self).nodes@,
            final(self).alive@ == old(self).alive@,
            final(self).connected@ == old(self).connected@,
            final(self).ids@ == old(self).ids@,
            final(self).step == old(self).step,
            final(self).commands@ == old(self).commands@,
            final(self).stores@.len() == old(self).stores@.len(),
            forall|i: int| 0 <= i < final(self).stores@.len() && i != node ==> #[trigger] final(self).stores@[i]
                == old(self).stores@[i],
            final(self).stores@[node as int]@ == stores_after(
                old(self).stores@[node as int]@,
                committed_views(committed@),
                old(self).commands@,
            ),
    {
        let ghost all = committed_views(committed@);
        let ghost start = self.stores@[node as int]@;
        let mut committed = committed;
        let ghost mut k: int = 0;
        while committed.len() > 0
            invariant
                self.wf(),
                node < self.nodes@.len(),
                self.nodes@ == old(self).nodes@,
                self.alive@ == old(self).alive@,
                self.connected@ == old(self).connected@,
                self.ids@ == old(self).ids@,
                self.step == old(self).step,
                self.commands@ == old(self).commands@,
                self.stores@.len() == old(self).stores@.len(),
                forall|i: int| 0 <= i < self.stores@.len() && i != node ==> #[trigger] self.stores@[i] == old(
                    self,
                ).stores@[i],
                start == old(self).stores@[node as int]@,
                0 <= k <= all.len(),
                committed_views(committed@) == all.subrange(k, all.len() as int),
                self.stores@[node as int]@ == stores_after(start, all.take(k), old(self).commands@),
            decreases committed@.len(),
        {
            let ghost pre = committed@;
            let ghost pre_stores = self.stores@;
            assert(pre.len() > 0 && committed_views(pre).len() == pre.len());
            assert(k < all.len());
            let c = committed.remove(0);
            assert(c == pre[0]);
            assert(c@ == all[k]) by {
                assert(committed_views(pre)[0] == pre[0]@);
                assert(all.subrange(k, all.len() as int)[0] == all[k]);
            }
            self.apply(node, c);
            proof {
                assert(all.take(k + 1).drop_last() =~= all.take(k));
                assert forall|j: int| 0 <= j < committed@.len() implies #[trigger] committed_views(committed@)[j]
                    == all.subrange(k + 1, all.len() as int)[j] by {
                    assert(committed@[j] == pre[j + 1]);
                    assert(committed_views(pre)[j + 1] == pre[j + 1]@);
                    assert(all.subrange(k, all.len() as int)[j + 1] == all[k + 1 + j]);
                }
                assert(committed_views(committed@) =~= all.subrange(k + 1, all.len() as int));
                assert forall|i: int| 0 <= i < self.stores@.len() && i != node implies #[trigger] self.stores@[i]
                    == old(self).stores@[i] by {
                    assert(self.stores@[i] == pre_stores[i]);
                }
                k = k + 1;
            }
        }
        assert(all.take(k) =~= all);
    }

    /// Put member `from`'s envelopes on the bus, each routed to the first
    /// member with its addressee's id; an envelope to an unknown id is
    /// dropped.
    #[verifier::spinoff_prover]
    #[verifier::rlimit(30)]
    fn route_all(&self, from: usize, messages: Vec<Envelope>, bus: &mut Vec<(usize, usize, Message)>)
        requires
            self.wf(),
            from < self.members(),
            forall|k: int|
                0 <= k < old(bus)@.len() ==> #[trigger] old(bus)@[k].0 < self.members() && old(bus)@[k].1
                    < self.members(),
        ensures
            bus_view(final(bus)@) == bus_view(old(bus)@) + routed(envelope_views(messages@), self@.ids, from as int),
            forall|k: int|
                0 <= k < final(bus)@.len() ==> #[trigger] final(bus)@[k].0 < self.members() && final(bus)@[k].1
                    < self.members(),
    {
        let ghost all = envelope_views(messages@);
        let ghost start = bus_view(bus@);
        let mut messages = messages;
        let ghost mut k: int = 0;
        while messages.len() > 0
            invariant
                self.wf(),
                from < self.members(),
                start == bus_view(old(bus)@),
                0 <= k <= all.len(),
                envelope_views(messages@) == all.subrange(k, all.len() as int),
                bus_view(bus@) == start + routed(all.take(k), self@.ids, from as int),
                forall|j: int| 0 <= j < bus@.len() ==> #[trigger] bus@[j].0 < self.members() && bus@[j].1
                    < self.members(),
            decreases messages@.len(),
        {
            let ghost pre = messages@;
            let ghost pre_bus = bus@;
            assert(pre.len() > 0 && envelope_views(pre).len() == pre.len());
            assert(k < all.len());
            let env = messages.remove(0);
            assert(env == pre[0]);
            assert(env@ == all[k]) by {
                assert(envelope_views(pre)[0] == pre[0]@);
                assert(all.subrange(k, all.len() as int)[0] == all[k]);
            }
            proof {
                assert(all.take(k + 1).drop_last() =~= all.take(k));
                assert(all.take(k + 1).last() == all[k]);
            }
            match self.index_of(&env.to) {
                Some(to) => {
                    bus.push((to, from, env.message));
                    assert(bus_view(bus@) =~= bus_view(pre_bus) + seq![(to as int, from as int, all[k].message)]);
                },
                None => {},
            }
            proof {
                assert forall|j: int| 0 <= j < messages@.len() implies #[trigger] envelope_views(messages@)[j]
                    == all.subrange(k + 1, all.len() as int)[j] by {
                    assert(messages@[j] == pre[j + 1]);
                    assert(envelope_views(pre)[j + 1] == pre[j + 1]@);
                    assert(all.subrange(k, all.len() as int)[j + 1] == all[k + 1 + j]);
                }
                assert(envelope_views(messages@) =~= all.subrange(k + 1, all.len() as int));
                assert forall|j: int| 0 <= j < bus@.len() implies #[trigger] bus@[j].0 < self.members() && bus@[j].1
                    < self.members() by {
                    if j < pre_bus.len() {
                        assert(bus@[j] == pre_bus[j]);
                    }
                }
                k = k + 1;
            }
        }
        assert(all.take(k) =~= all);
    }

    /// Tick every live member whose term can still rise.
    #[verifier::spinoff_prover]
    fn tick_all(&mut self)
        requires
            old(self).wf(),
        ensures
            final(self).wf(),
            final(self)@ == old(self)@.after_tick(),
    {
        let ghost s = self@;
        let n = self.nodes.len();
        let mut i: usize = 0;
        while i < n
            invariant
                i <= n,
                n == self.nodes@.len(),
                self.wf(),
                s == old(self)@,
                old(self).nodes@.len() == n,
                old(self).wf(),
                self.stores@ == old(self).stores@,
                self.alive@ == old(self).alive@,
                self.connected@ == old(self).connected@,
                self.ids@ == old(self).ids@,
                self.commands@ == old(self).commands@,
                self.step == old(self).step,
                forall|j: int|
                    #![trigger self.nodes@[j]]
                    0 <= j < n ==> self.nodes@[j].rng_seed() == old(self).nodes@[j].rng_seed(),
                forall|j: int|
                    #![trigger self.nodes@[j]]
                    0 <= j < i ==> self.nodes@[j]@ == s.after_tick().nodes[j] && self.nodes@[j].rng_drawn()
                        == s.after_tick().drawn[j],
                forall|j: int| #![trigger self.nodes@[j]] i <= j < n ==> self.nodes@[j] == old(self).nodes@[j],
            decreases n - i,
        {
            let ghost pre = self.nodes@;
            assert(pre[i as int] == old(self).nodes@[i as int]);
            assert(s.nodes[i as int] == pre[i as int]@ && s.drawn[i as int] == pre[i as int].rng_drawn()
                && s.seeds[i as int] == pre[i as int].rng_seed()->0 && s.alive[i as int] == self.alive@[i as int]);
            if self.alive[i] && self.nodes[i].current_term() < u64::MAX {
                self.nodes[i].tick();
            }
            proof {
                assert forall|j: int|
                    #![trigger self.nodes@[j]]
                    0 <= j < i + 1 implies self.nodes@[j]@ == s.after_tick().nodes[j] && self.nodes@[j].rng_drawn()
                        == s.after_tick().drawn[j] by {
                    if j != i {
                        assert(self.nodes@[j] == pre[j]);
                    }
                }
                assert forall|j: int|
                    #![trigger self.nodes@[j]]
                    0 <= j < n implies self.nodes@[j].rng_seed() == old(self).nodes@[j].rng_seed() by {
                    if j != i {
                        assert(self.nodes@[j] == pre[j]);
                    }
                }
                assert forall|j: int| #![trigger self.nodes@[j]] i + 1 <= j < n implies self.nodes@[j] == old(
                    self,
                ).nodes@[j] by {
                    assert(self.nodes@[j] == pre[j]);
                }
            }
            i = i + 1;
        }
        proof {
            let t = s.after_tick();
            assert(self@.nodes =~= t.nodes);
            assert(self@.drawn =~= t.drawn);
            assert(self@.seeds =~= t.seeds);
            assert(self@.stores =~= t.stores);
            assert(self@.ids =~= t.ids);
        }
    }

    /// Drain every live member: its store applies what it committed and its
    /// messages go on the bus, routed by addressee.
    #[verifier::spinoff_prover]
    fn drain_all(&mut self) -> (bus: Vec<(usize, usize, Message)>)
        requires
            old(self).wf(),
        ensures
            final(self).wf(),
            final(self)@ == old(self)@.after_drain(),
            final(self).members() == old(self).members(),
            bus_view(bus@) == old(self)@.outbox(),
            forall|k: int| 0 <= k < bus@.len() ==> #[trigger] bus@[k].0 < old(self).members() && bus@[k].1 < old(
                self,
            ).members(),
    {
        let ghost s = self@;
        let n = self.nodes.len();
        let mut bus: Vec<(usize, usize, Message)> = Vec::new();
        let mut i: usize = 0;
        while i < n
            invariant
                i <= n,
                n == self.nodes@.len(),
                self.wf(),
                s == old(self)@,
                old(self).nodes@.len() == n,
                old(self).wf(),
                self.alive@ == old(self).alive@,
                self.connected@ == old(self).connected@,
                self.ids@ == old(self).ids@,
                self.commands@ == old(self).commands@,
                self.step == old(self).step,
                forall|j: int|
                    #![trigger self.nodes@[j]]
                    0 <= j < n ==> self.nodes@[j].rng_seed() == old(self).nodes@[j].rng_seed()
                        && self.nodes@[j].rng_drawn() == old(self).nodes@[j].rng_drawn(),
                forall|j: int|
                    #![trigger self.nodes@[j]]
                    0 <= j < i ==> self.nodes@[j]@ == s.after_drain().nodes[j] && self.stores@[j]@
                        == s.after_drain().stores[j],
                forall|j: int|
                    #![trigger self.nodes@[j]]
                    i <= j < n ==> self.nodes@[j] == old(self).nodes@[j] && self.stores@[j] == old(
                        self,
                    ).stores@[j],
                bus_view(bus@) == bus_of(s.nodes, s.alive, s.ids, i as int),
                forall|k: int| 0 <= k < bus@.len() ==> #[trigger] bus@[k].0 < n && bus@[k].1 < n,
            decreases n - i,
        {
            let ghost pre = self.nodes@;
            let ghost pre_stores = self.stores@;
            assert(pre[i as int] == old(self).nodes@[i as int] && pre_stores[i as int] == old(self).stores@[i as int]);
            assert(s.nodes[i as int] == pre[i as int]@ && s.stores[i as int] == pre_stores[i as int]@);
            if self.alive[i] {
                let ready = self.nodes[i].take_ready();
                let Ready { messages, committed } = ready;
                let ghost mid_nodes = self.nodes@;
                self.apply_all(i, committed);
                self.route_all(i, messages, &mut bus);
                assert(self.nodes@ == mid_nodes);
            }
            proof {
                assert forall|j: int|
                    #![trigger self.nodes@[j]]
                    0 <= j < i + 1 implies self.nodes@[j]@ == s.after_drain().nodes[j] && self.stores@[j]@
                        == s.after_drain().stores[j] by {
                    if j != i {
                        assert(self.nodes@[j] == pre[j]);
                        assert(self.stores@[j] == pre_stores[j]);
                    }
                }
                assert forall|j: int|
                    #![trigger self.nodes@[j]]
                    0 <= j < n implies self.nodes@[j].rng_seed() == old(self).nodes@[j].rng_seed()
                        && self.nodes@[j].rng_drawn() == old(self).nodes@[j].rng_drawn() by {
                    if j != i {
                        assert(self.nodes@[j] == pre[j]);
                    }
                }
                assert forall|j: int|
                    #![trigger self.nodes@[j]]
                    i + 1 <= j < n implies self.nodes@[j] == old(self).nodes@[j] && self.stores@[j] == old(
                        self,
                    ).stores@[j] by {
                    assert(self.nodes@[j] == pre[j]);
                    assert(self.stores@[j] == pre_stores[j]);
                }
            }
            i = i + 1;
        }
        proof {
            let d = s.after_drain();
            assert forall|j: int| 0 <= j < n implies #[trigger] self@.stores[j] == d.stores[j] by {
                assert(self.nodes@[j]@ == d.nodes[j]);
            }
            assert(self@.nodes =~= d.nodes);
            assert(self@.drawn =~= d.drawn);
            assert(self@.seeds =~= d.seeds);
            assert(self@.stores =~= d.stores);
            assert(self@.ids =~= d.ids);
        }
        bus
    }

    /// Deliver the bus in order: a message reaches its addressee when both
    /// ends run and are connected and the addressee can handle it.
    #[verifier::spinoff_prover]
    fn deliver_all(&mut self, bus: Vec<(usize, usize, Message)>)
        requires
            old(self).wf(),
            forall|k: int| 0 <= k < bus@.len() ==> #[trigger] bus@[k].0 < old(self).members() && bus@[k].1 < old(
                self,
            ).members(),
        ensures
            final(self).wf(),
            final(self)@ == old(self)@.after_delivery(bus_view(bus@)),
    {
        let ghost s = self@;
        let ghost full = bus@;
        let ghost all = bus_view(bus@);
        let n = self.nodes.len();
        let mut bus = bus;
        let ghost mut k: int = 0;
        proof {
            assert(all.take(0) =~= Seq::<BusItem>::empty());
            assert(s.after_delivery(all.take(0)).nodes =~= self@.nodes);
        }
        while bus.len() > 0
            invariant
                n == self.nodes@.len(),
                self.wf(),
                s == old(self)@,
                all == bus_view(full),
                forall|j: int| 0 <= j < full.len() ==> #[trigger] full[j].0 < n && full[j].1 < n,
                0 <= k <= full.len(),
                bus@ == full.subrange(k, full.len() as int),
                self@ == s.after_delivery(all.take(k)),
            decreases bus@.len(),
        {
            let ghost pre = self.nodes@;
            let ghost before = self@;
            assert(bus@.len() > 0);
            assert(k < full.len());
            assert(bus@[0] == full[k]);
            let (to, from, message) = bus.remove(0);
            proof {
                assert(all.take(k + 1).drop_last() =~= all.take(k));
                assert(all.take(k + 1).last() == (to as int, from as int, message@));
                assert(before.nodes[to as int] == pre[to as int]@);
                assert(before.ids[from as int] == self.ids@[from as int]@);
                assert(before.seeds[to as int] == pre[to as int].rng_seed()->0);
                assert(before.drawn[to as int] == pre[to as int].rng_drawn());
            }
            if self.deliverable(from, to) && self.nodes[to].accepts(&message) {
                let sender = self.ids[from].clone();
                self.nodes[to].step(sender, message);
                proof {
                    let r = s.after_delivery(all.take(k + 1));
                    assert(self@.nodes =~= r.nodes) by {
                        assert forall|j: int| 0 <= j < n implies #[trigger] self@.nodes[j] == r.nodes[j] by {
                            if j != to {
                                assert(self.nodes@[j] == pre[j]);
                            }
                        }
                    }
                    assert(self@.drawn =~= r.drawn) by {
                        assert forall|j: int| 0 <= j < n implies #[trigger] self@.drawn[j] == r.drawn[j] by {
                            if j != to {
                                assert(self.nodes@[j] == pre[j]);
                            }
                        }
                    }
                    assert(self@.seeds =~= before.seeds) by {
                        assert forall|j: int| 0 <= j < n implies #[trigger] self@.seeds[j] == before.seeds[j] by {
                            if j != to {
                                assert(self.nodes@[j] == pre[j]);
                            }
                        }
                    }
                    assert(self@.stores =~= before.stores);
                    assert(self@.ids =~= before.ids);
                    assert forall|j: int| 0 <= j < n implies #[trigger] self.nodes@[j].wf() && self.nodes@[j].rng_seed() is Some by {
                        if j != to {
                            assert(self.nodes@[j] == pre[j]);
                        }
                    }
                }
            }
            proof {
                assert(bus@ =~= full.subrange(k + 1, full.len() as int));
                k = k + 1;
            }
        }
        assert(all.take(k) =~= all);
    }

    /// Advance the whole cluster by one step: every live member ticks, its
    /// outputs are drained and applied, and the messages are delivered to
    /// reachable peers.
    pub fn step(&mut self)
        requires
            old(self).wf(),
            old(self).steps() < u64::MAX,
        ensures
            final(self).wf(),
            final(self)@ == old(self)@.stepped(),
            safe(old(self)@) ==> safe(final(self)@),
    {
        self.tick_all();
        let bus = self.drain_all();
        self.deliver_all(bus);
        self.step = self.step + 1;
        proof {
            if safe(old(self)@) {
                lemma_step_keeps_safety(old(self)@);
            }
        }
    }

    /// Run for `steps` steps.
    pub fn run(&mut self, steps: u64)
        requires
            old(self).wf(),
            old(self).steps() + steps <= u64::MAX,
        ensures
            final(self).wf(),
            final(self)@ == old(self)@.run_steps(steps as nat),
            safe(old(self)@) ==> safe(final(self)@),
    {
        let mut k: u64 = 0;
        while k < steps
            invariant
                k <= steps,
                self.wf(),
                self@ == old(self)@.run_steps(k as nat),
                safe(old(self)@) ==> safe(self@),
                self.steps() == old(self).steps() + k,
                old(self).steps() + steps <= u64::MAX,
            decreases steps - k,
        {
            self.step();
            k = k + 1;
        }
    }

    /// Step until `pred` holds or `max` steps elapse; returns whether it held.
    pub fn run_until(&mut self, max: u64, pred: impl Fn(&SimCluster) -> bool) -> (res: bool)
        requires
            old(self).wf(),
            old(self).steps() + max <= u64::MAX,
            forall|c: &SimCluster| #[trigger] pred.requires((c,)),
        ensures
            final(self).wf(),
            final(self).steps() <= old(self).steps() + max,
            final(self)@ == old(self)@.run_steps((final(self).steps() - old(self).steps()) as nat),
            res ==> pred.ensures((&*final(self),), true),
            !res ==> pred.ensures((&*final(self),), false) && final(self).steps() == old(self).steps() + max,
            safe(old(self)@) ==> safe(final(self)@),
    {
        let mut k: u64 = 0;
        while k < max
            invariant
                k <= max,
                self.wf(),
                self@ == old(self)@.run_steps(k as nat),
                safe(old(self)@) ==> safe(self@),
                self.steps() == old(self).steps() + k,
                old(self).steps() + max <= u64::MAX,
                forall|c: &SimCluster| #[trigger] pred.requires((c,)),
            decreases max - k,
        {
            if pred(&*self) {
                return true;
            }
            self.step();
            k = k + 1;
        }
        pred(&*self)
    }

    /// Index of the current leader, if a unique one exists at the highest term.
    pub fn leader(&self) -> (res: Option<usize>)
        requires
            self.wf(),
        ensures
            match res {
                Some(i) => self.leads_at_top(i as int) && forall|j: int| #[trigger] self.leads_at_top(j) ==> j == i,
                None => forall|i: int| #[trigger] self.leads_at_top(i) ==> exists|j: int| #[trigger] self.leads_at_top(j)
                    && j != i,
            },
    {
        let n = self.nodes.len();
        let mut max_term: u64 = 0;
        let mut any = false;
        let mut i: usize = 0;
        while i < n
            invariant
                i <= n,
                n == self.members(),
                self.wf(),
                any == exists|j: int| 0 <= j < i && self.is_alive(j),
                forall|j: int| 0 <= j < i && self.is_alive(j) ==> #[trigger] self.node(j).current_term <= max_term,
                any ==> exists|j: int| 0 <= j < i && self.is_alive(j) && self.node(j).current_term == max_term,
            decreases n - i,
        {
            let ghost pre_any = any;
            let ghost pre_max = max_term;
            if self.alive[i] {
                let t = self.nodes[i].current_term();
                if !any || t > max_term {
                    max_term = t;
                }
                any = true;
                proof {
                    assert(self.is_alive(i as int));
                    assert(self.node(i as int).current_term <= max_term);
                    if max_term == t {
                        assert(self.is_alive(i as int) && self.node(i as int).current_term == max_term);
                    } else {
                        let w = choose|j: int| 0 <= j < i && self.is_alive(j) && self.node(j).current_term == pre_max;
                        assert(self.is_alive(w) && self.node(w).current_term == max_term);
                    }
                }
            } else {
                proof {
                    assert(!self.is_alive(i as int));
                    if any {
                        let w = choose|j: int| 0 <= j < i && self.is_alive(j) && self.node(j).current_term == max_term;
                        assert(0 <= w < i + 1 && self.is_alive(w));
                    }
                    assert forall|j: int| 0 <= j < i + 1 && self.is_alive(j) implies #[trigger] self.node(j).current_term
                        <= max_term by {
                        assert(j != i);
                    }
                }
            }
            i = i + 1;
        }
        if !any {
            return None;
        }
        let mut found: Option<usize> = None;
        let mut count: usize = 0;
        let mut i: usize = 0;
        while i < n
            invariant
                i <= n,
                n == self.members(),
                self.wf(),
                forall|j: int| 0 <= j < n && self.is_alive(j) ==> #[trigger] self.node(j).current_term <= max_term,
                exists|j: int| 0 <= j < n && self.is_alive(j) && self.node(j).current_term == max_term,
                count <= i,
                count == 0 <==> forall|j: int| 0 <= j < i ==> !#[trigger] self.leads_at_top(j),
                count >= 1 ==> (found matches Some(f) && f < i && self.leads_at_top(f as int)),
                count == 1 ==> (found matches Some(f) && forall|j: int| 0 <= j < i && #[trigger] self.leads_at_top(j)
                    ==> j == f),
                count >= 2 ==> (found matches Some(f) && exists|j: int| 0 <= j < i && #[trigger] self.leads_at_top(j)
                    && j != f),
            decreases n - i,
        {
            if self.alive[i] && self.nodes[i].role() == Role::Leader && self.nodes[i].current_term() == max_term {
                proof {
                    assert(self.leads_at_top(i as int));
                }
                if count == 0 {
                    found = Some(i);
                }
                count = count + 1;
            } else {
                proof {
                    if self.leads_at_top(i as int) {
                        let w = choose|j: int| 0 <= j < n && self.is_alive(j) && self.node(j).current_term == max_term;
                        assert(self.node(w).current_term <= self.node(i as int).current_term);
                    }
                }
            }
            i = i + 1;
        }
        if count == 1 {
            found
        } else {
            None
        }
    }

    /// Propose a write to node `idx`. Returns the assigned index on success.
    pub fn propose(&mut self, idx: usize, command: WriteCommand) -> (res: Option<u64>)
        requires
            old(self).wf(),
            idx < old(self).members(),
            old(self).node(idx as int).log.last_index() + 1 < u64::MAX,
        ensures
            final(self).wf(),
            final(self)@ == (SimState {
                nodes: old(self)@.nodes.update(
                    idx as int,
                    old(self)@.nodes[idx as int].propose(decimal(old(self)@.commands.len())),
                ),
                commands: old(self)@.commands.push(command),
                ..old(self)@
            }),
            safe(old(self)@) ==> safe(final(self)@),
            res is Some <==> old(self).node(idx as int).role == Role::Leader,
            res matches Some(index) ==> index == old(self).node(idx as int).log.last_index() + 1,
    {
        let ghost s = self@;
        let entry = decimal_text(self.commands.len() as u64);
        self.commands.push(command);
        let ghost pre = self.nodes@;
        let res = match self.nodes[idx].propose(entry) {
            Ok(index) => Some(index),
            Err(_) => None,
        };
        proof {
            let t = SimState {
                nodes: s.nodes.update(idx as int, s.nodes[idx as int].propose(decimal(s.commands.len()))),
                commands: s.commands.push(command),
                ..s
            };
            assert forall|j: int| 0 <= j < self.nodes@.len() && j != idx implies #[trigger] self.nodes@[j] == pre[j] by {}
            assert(self@.nodes =~= t.nodes);
            assert(self@.drawn =~= t.drawn);
            assert(self@.seeds =~= t.seeds);
            assert(self@.stores =~= t.stores);
            assert(self@.ids =~= t.ids);
            assert(self@.commands =~= t.commands);
            self.lemma_view();
            if safe(s) {
                lemma_propose_keeps_safety(s, self@, idx as int, decimal(s.commands.len()));
            }
        }
        res
    }

    /// Read a key from node `idx`'s applied state machine.
    pub fn get(&self, idx: usize, key: &str) -> (res: Option<Vec<u8>>)
        requires
            self.wf(),
            idx < self.members(),
        ensures
            match res {
                Some(v) => self.store(idx as int).contains_key(key@) && v@ == self.store(idx as int)[key@],
                None => !self.store(idx as int).contains_key(key@),
            },
    {
        self.stores[idx].get(key)
    }

    pub fn commit_index(&self, idx: usize) -> (res: u64)
        requires
            self.wf(),
            idx < self.members(),
        ensures
            res == self.node(idx as int).commit_index,
    {
        self.nodes[idx].commit_index()
    }

    pub fn term(&self, idx: usize) -> (res: u64)
        requires
            self.wf(),
            idx < self.members(),
        ensures
            res == self.node(idx as int).current_term,
    {
        self.nodes[idx].current_term()
    }

    /// The role of node `idx`.
    pub fn role(&self, idx: usize) -> (res: Role)
        requires
            self.wf(),
            idx < self.members(),
        ensures
            res == self.node(idx as int).role,
    {
        self.nodes[idx].role()
    }

    pub fn size(&self) -> (res: usize)
        requires
            self.wf(),
        ensures
            res == self.members(),
    {
        self.nodes.len()
    }

    /// Crash a node: it stops ticking and receiving until restarted.
    pub fn crash(&mut self, idx: usize)
        requires
            old(self).wf(),
            idx < old(self).members(),
        ensures
            final(self).wf(),
            final(self)@ == (SimState { alive: old(self)@.alive.update(idx as int, false), ..old(self)@ }),
            safe(old(self)@) ==> safe(final(self)@),
    {
        self.alive.set(idx, false);
        proof {
            self.lemma_view();
            if safe(old(self)@) {
                lemma_same_members_keep_safety(old(self)@, self@);
            }
        }
    }

    /// Restart a previously crashed node (its log/state persist).
    pub fn restart(&mut self, idx: usize)
        requires
            old(self).wf(),
            idx < old(self).members(),
        ensures
            final(self).wf(),
            final(self)@ == (SimState { alive: old(self)@.alive.update(idx as int, true), ..old(self)@ }),
            safe(old(self)@) ==> safe(final(self)@),
    {
        self.alive.set(idx, true);
        proof {
            self.lemma_view();
            if safe(old(self)@) {
                lemma_same_members_keep_safety(old(self)@, self@);
            }
        }
    }

    /// Partition a node away from the rest of the cluster.
    pub fn disconnect(&mut self, idx: usize)
        requires
            old(self).wf(),
            idx < old(self).members(),
        ensures
            final(self).wf(),
            final(self)@ == (SimState { connected: old(self)@.connected.update(idx as int, false), ..old(self)@ }),
            safe(old(self)@) ==> safe(final(self)@),
    {
        self.connected.set(idx, false);
        proof {
            self.lemma_view();
            if safe(old(self)@) {
                lemma_same_members_keep_safety(old(self)@, self@);
            }
        }
    }

    /// Heal a node's network partition.
    pub fn reconnect(&mut self, idx: usize)
        requires
            old(self).wf(),
            idx < old(self).members(),
        ensures
            final(self).wf(),
            final(self)@ == (SimState { connected: old(self)@.connected.update(idx as int, true), ..old(self)@ }),
            safe(old(self)@) ==> safe(final(self)@),
    {
        self.connected.set(idx, true);
        proof {
            self.lemma_view();
            if safe(old(self)@) {
                lemma_same_members_keep_safety(old(self)@, self@);
            }
        }
    }
}

} // verus!
