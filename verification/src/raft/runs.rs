//! A node over a run of calls: what every call's contract gives, chained.
//!
//! A run is a sequence of the calls the node takes — ticks, messages,
//! proposals and drains — and what the drains hand out. Over any run, the
//! votes a node grants in one term all go to one candidate; and a node
//! seeded alike and driven alike is in the same state and hands out the
//! same outputs.

use vstd::prelude::*;

use super::message::MessageView;
use super::model::{CommittedView, EnvelopeView, NodeView};
use super::node::{seeded_draws, seeded_step, seeded_tick, RaftConfig};
use super::log::LogView;
use super::state::Role;
use crate::election::{
    grant_of, is_grant, lemma_drain_moves, lemma_propose_moves, lemma_step_moves, lemma_tick_moves,
    lemma_timeout_moves, votes_move,
};

verus! {

/// A call on a node, as its contract states it. A tick or a message that
/// restarts the election timer comes with the timeout then drawn.
pub enum NodeCall {
    Tick { timeout: u64 },
    Step { from: Seq<char>, message: MessageView, timeout: u64 },
    Propose { command: Seq<u8> },
    Drain,
}

/// The node after a call.
pub open spec fn after_call(v: NodeView, c: NodeCall) -> NodeView {
    match c {
        NodeCall::Tick { timeout } => if v.tick_resets_timer() {
            v.tick().with_timeout(timeout)
        } else {
            v.tick()
        },
        NodeCall::Step { from, message, timeout } => if v.step_resets_timer(message) {
            v.step(from, message).with_timeout(timeout)
        } else {
            v.step(from, message)
        },
        NodeCall::Propose { command } => v.propose(command),
        NodeCall::Drain => v.drained(),
    }
}

/// The messages a call hands out: a drain hands out the queue.
pub open spec fn handed_out(v: NodeView, c: NodeCall) -> Seq<EnvelopeView> {
    match c {
        NodeCall::Drain => v.apply_committed().outgoing,
        _ => Seq::empty(),
    }
}

/// The node after the calls, and the messages the drains handed out, in
/// order.
pub open spec fn run_calls(v: NodeView, calls: Seq<NodeCall>) -> (NodeView, Seq<EnvelopeView>)
    decreases calls.len(),
{
    if calls.len() == 0 {
        (v, Seq::empty())
    } else {
        let (w, out) = run_calls(v, calls.drop_last());
        (after_call(w, calls.last()), out + handed_out(w, calls.last()))
    }
}

/// A tick is taken only while the term has room for an election, as
/// [`super::node::RaftNode::tick`] requires.
pub open spec fn call_allowed(v: NodeView, c: NodeCall) -> bool {
    c is Tick ==> (v.tick_resets_timer() ==> v.current_term < u64::MAX)
}

/// Every call of the run is allowed where it is taken.
pub open spec fn run_allowed(v: NodeView, calls: Seq<NodeCall>) -> bool {
    forall|k: int| 0 <= k < calls.len() ==> call_allowed(#[trigger] run_calls(v, calls.take(k)).0, calls[k])
}

/// The granting replies among `msgs` are consistent with `v`: each is of a
/// term the node has reached, goes to its vote when of its current term,
/// and two of one term go to one candidate.
pub open spec fn grants_ok(msgs: Seq<EnvelopeView>, v: NodeView) -> bool {
    &&& forall|k: int|
        #![trigger msgs[k]]
        0 <= k < msgs.len() && is_grant(msgs[k].message) ==> grant_of(msgs[k].message).0 <= v.current_term && (
        grant_of(msgs[k].message).0 == v.current_term ==> v.voted_for == Some(msgs[k].to))
    &&& forall|i: int, j: int|
        #![trigger msgs[i], msgs[j]]
        0 <= i < msgs.len() && 0 <= j < msgs.len() && is_grant(msgs[i].message) && is_grant(msgs[j].message)
            && grant_of(msgs[i].message).0 == grant_of(msgs[j].message).0 ==> msgs[i].to == msgs[j].to
}

/// One move by the voting rules keeps the handed-out and queued grants
/// consistent.
proof fn lemma_grants_move(out: Seq<EnvelopeView>, a: NodeView, b: NodeView, brought: Option<(u64, Seq<char>)>)
    requires
        votes_move(a, b, brought),
        grants_ok(out + a.outgoing, a),
    ensures
        grants_ok(out + b.outgoing, b),
{
    let all = out + a.outgoing;
    let next = out + b.outgoing;
    // Each grant of `next` is one of `all`, or a new one for the node's
    // vote in its current term.
    assert forall|k: int| #![trigger next[k]] 0 <= k < next.len() && is_grant(next[k].message) implies (exists|q: int|
        0 <= q < all.len() && all[q] == next[k]) || (grant_of(next[k].message).0 == b.current_term
        && b.voted_for == Some(next[k].to)) by {
        if k < out.len() {
            assert(next[k] == all[k]);
        } else {
            let r = k - out.len();
            assert(next[k] == b.outgoing[r]);
            if r < a.outgoing.len() && b.outgoing[r] == a.outgoing[r] {
                assert(all[out.len() + r] == next[k]);
            }
        }
    }
    assert forall|k: int|
        #![trigger next[k]]
        0 <= k < next.len() && is_grant(next[k].message) implies grant_of(next[k].message).0 <= b.current_term && (
        grant_of(next[k].message).0 == b.current_term ==> b.voted_for == Some(next[k].to)) by {
        if exists|q: int| 0 <= q < all.len() && all[q] == next[k] {
            let q = choose|q: int| 0 <= q < all.len() && all[q] == next[k];
            assert(all[q] == next[k]);
        }
    }
    assert forall|i: int, j: int|
        #![trigger next[i], next[j]]
        0 <= i < next.len() && 0 <= j < next.len() && is_grant(next[i].message) && is_grant(next[j].message)
            && grant_of(next[i].message).0 == grant_of(next[j].message).0 implies next[i].to == next[j].to by {
        let t = grant_of(next[i].message).0;
        if t == b.current_term {
            assert(b.voted_for == Some(next[i].to));
            assert(b.voted_for == Some(next[j].to));
        } else {
            let p = choose|q: int| 0 <= q < all.len() && all[q] == next[i];
            let q = choose|q: int| 0 <= q < all.len() && all[q] == next[j];
            assert(all[p] == next[i] && all[q] == next[j]);
        }
    }
}

/// Over any allowed run of calls from a node whose queue holds no granting
/// reply, the votes it grants in one term all go to one candidate: any two
/// granting replies of one term that its drains hand out are addressed to
/// the same node.
pub proof fn lemma_run_grants_one_candidate_per_term(v: NodeView, calls: Seq<NodeCall>)
    requires
        forall|k: int| 0 <= k < v.outgoing.len() ==> !is_grant(#[trigger] v.outgoing[k].message),
        run_allowed(v, calls),
    ensures
        forall|i: int, j: int|
            #![trigger run_calls(v, calls).1[i], run_calls(v, calls).1[j]]
            0 <= i < run_calls(v, calls).1.len() && 0 <= j < run_calls(v, calls).1.len() && is_grant(
                run_calls(v, calls).1[i].message,
            ) && is_grant(run_calls(v, calls).1[j].message) && grant_of(run_calls(v, calls).1[i].message).0
                == grant_of(run_calls(v, calls).1[j].message).0 ==> run_calls(v, calls).1[i].to == run_calls(
                v,
                calls,
            ).1[j].to,
{
    lemma_run_grants(v, calls);
    let (w, out) = run_calls(v, calls);
    assert forall|i: int, j: int|
        #![trigger out[i], out[j]]
        0 <= i < out.len() && 0 <= j < out.len() && is_grant(out[i].message) && is_grant(out[j].message)
            && grant_of(out[i].message).0 == grant_of(out[j].message).0 implies out[i].to == out[j].to by {
        let all = out + w.outgoing;
        assert(all[i] == out[i] && all[j] == out[j]);
    }
}

/// The run keeps the grants consistent.
proof fn lemma_run_grants(v: NodeView, calls: Seq<NodeCall>)
    requires
        forall|k: int| 0 <= k < v.outgoing.len() ==> !is_grant(#[trigger] v.outgoing[k].message),
        run_allowed(v, calls),
    ensures
        grants_ok(run_calls(v, calls).1 + run_calls(v, calls).0.outgoing, run_calls(v, calls).0),
    decreases calls.len(),
{
    if calls.len() == 0 {
        let all = Seq::<EnvelopeView>::empty() + v.outgoing;
        assert(all =~= v.outgoing);
    } else {
        let front = calls.drop_last();
        assert forall|k: int| 0 <= k < front.len() implies call_allowed(
            #[trigger] run_calls(v, front.take(k)).0,
            front[k],
        ) by {
            assert(front.take(k) =~= calls.take(k));
            assert(call_allowed(run_calls(v, calls.take(k)).0, calls[k]));
        }
        lemma_run_grants(v, front);
        let (w, out) = run_calls(v, front);
        let c = calls.last();
        assert(calls.take(front.len() as int) =~= front);
        assert(call_allowed(run_calls(v, calls.take(front.len() as int)).0, calls[front.len() as int]));
        match c {
            NodeCall::Tick { timeout } => {
                lemma_tick_moves(w);
                if w.tick_resets_timer() {
                    lemma_timeout_moves(w, w.tick(), None, timeout);
                }
                lemma_grants_move(out, w, after_call(w, c), None);
                assert(out + handed_out(w, c) =~= out);
            },
            NodeCall::Step { from, message, timeout } => {
                lemma_step_moves(w, from, message);
                if w.step_resets_timer(message) {
                    lemma_timeout_moves(w, w.step(from, message), crate::election::brought_by(message), timeout);
                }
                lemma_grants_move(out, w, after_call(w, c), crate::election::brought_by(message));
                assert(out + handed_out(w, c) =~= out);
            },
            NodeCall::Propose { command } => {
                lemma_propose_moves(w, command);
                lemma_grants_move(out, w, after_call(w, c), None);
                assert(out + handed_out(w, c) =~= out);
            },
            NodeCall::Drain => {
                let d = w.drained();
                assert(w.apply_committed().outgoing == w.outgoing);
                assert((out + w.outgoing) + d.outgoing =~= out + w.outgoing);
            },
        }
    }
}

/// A call on a node whose generator was made from a seed, as the calls'
/// contracts state them: `tick`, `step`, `propose` and `take_ready`.
pub enum SeededCall {
    Tick,
    Step { from: Seq<char>, message: MessageView },
    Propose { command: Seq<u8> },
    TakeReady,
}

/// What a call hands back: the index a proposal got (none when the node
/// does not lead), the messages and committed outputs a drain takes, or
/// nothing.
pub enum CallOutput {
    Proposed(Option<u64>),
    Ready(Seq<EnvelopeView>, Seq<CommittedView>),
    Nothing,
}

/// The node, its draws and what it hands back after one call, its
/// generator made from `seed` with `drawn` drawn so far.
pub open spec fn seeded_call(v: NodeView, seed: u64, drawn: Seq<(u64, u64)>, c: SeededCall) -> (
    NodeView,
    Seq<(u64, u64)>,
    CallOutput,
) {
    match c {
        SeededCall::Tick => {
            let (w, d) = seeded_tick(v, seed, drawn);
            (w, d, CallOutput::Nothing)
        },
        SeededCall::Step { from, message } => {
            let (w, d) = seeded_step(v, seed, drawn, from, message);
            (w, d, CallOutput::Nothing)
        },
        SeededCall::Propose { command } => (
            v.propose(command),
            drawn,
            CallOutput::Proposed(
                if v.role == Role::Leader {
                    Some((v.log.last_index() + 1) as u64)
                } else {
                    None
                },
            ),
        ),
        SeededCall::TakeReady => (
            v.drained(),
            drawn,
            CallOutput::Ready(v.apply_committed().outgoing, v.apply_committed().committed),
        ),
    }
}

/// The node and its draws after the calls, and what each call handed back.
pub open spec fn seeded_run(v: NodeView, seed: u64, drawn: Seq<(u64, u64)>, calls: Seq<SeededCall>) -> (
    NodeView,
    Seq<(u64, u64)>,
    Seq<CallOutput>,
)
    decreases calls.len(),
{
    if calls.len() == 0 {
        (v, drawn, Seq::empty())
    } else {
        let (w, d, outs) = seeded_run(v, seed, drawn, calls.drop_last());
        let (w2, d2, o) = seeded_call(w, seed, d, calls.last());
        (w2, d2, outs.push(o))
    }
}

/// A node as `RaftNode::new` makes it from `id`, `peers` and `config` when
/// its generator is made from `seed`: a follower at term 0 with an empty
/// log, whose election timeout is the seed's first draw.
pub open spec fn fresh_node(id: Seq<char>, peers: Seq<Seq<char>>, config: RaftConfig, seed: u64) -> NodeView {
    NodeView {
        id,
        peers,
        config,
        role: Role::Follower,
        leader_id: None,
        current_term: 0,
        voted_for: None,
        log: LogView { entries: Seq::empty(), snapshot_index: 0, snapshot_term: 0 },
        commit_index: 0,
        last_applied: 0,
        next_index: Map::empty(),
        match_index: Map::empty(),
        votes: Set::empty(),
        election_elapsed: 0,
        heartbeat_elapsed: 0,
        election_timeout: seeded_draws(seed, fresh_draws(config)).last(),
        outgoing: Seq::empty(),
        committed: Seq::empty(),
    }
}

/// The ranges `RaftNode::new` draws: one election timeout.
pub open spec fn fresh_draws(config: RaftConfig) -> Seq<(u64, u64)> {
    seq![(config.election_timeout_min, config.election_timeout_max)]
}

/// Two nodes made by `RaftNode::new` from the same id, peers and seeded
/// configuration, and driven by the same calls, end in the same state with
/// the same draws, and every call handed back the same to both: the
/// messages and committed outputs of each `take_ready`, and the result of
/// each `propose`. The contracts of `new`, `tick`, `step`, `propose` and
/// `take_ready` each give one step of [`seeded_run`].
pub proof fn lemma_seeded_runs_agree(
    a: NodeView,
    b: NodeView,
    id: Seq<char>,
    peers: Seq<Seq<char>>,
    config: RaftConfig,
    seed: u64,
    calls: Seq<SeededCall>,
)
    requires
        config.seed == Some(seed),
        a == fresh_node(id, peers, config, seed),
        b == fresh_node(id, peers, config, seed),
    ensures
        seeded_run(a, seed, fresh_draws(config), calls) == seeded_run(b, seed, fresh_draws(config), calls),
{
}

} // verus!
