//! Election safety of the simulated cluster: in every state a simulation
//! reaches, no two members lead in the same term.
//!
//! The argument: in every reachable state some record of the votes cast so
//! far (voter, term, candidate) is true of it. Every move of a member keeps
//! such a record true once the member's own vote is added: a member votes
//! once per term, the votes a candidate counts are recorded votes for it,
//! and a granted reply on its way is a recorded vote. Two leaders of one
//! term each hold a majority of the members' votes, so some member voted
//! for both, and they are one.

use vstd::prelude::*;

use crate::raft::message::MessageView;
use crate::raft::model::{EnvelopeView, NodeView};
use crate::raft::node::seeded_step;
use crate::raft::state::Role;
use crate::decimal::{decimal, lemma_decimal_digits};
use crate::sim::{bus_of, delivered, others, position_of, routed, sim_id, sim_ids, BusItem, SimState};
use crate::text::ascii_chars;

verus! {

/// A vote: the voter, the term, the candidate.
pub type Ballot = (Seq<char>, u64, Seq<char>);

/// Whether `m` grants a vote.
pub open spec fn is_grant(m: MessageView) -> bool {
    m matches MessageView::RequestVoteReply { vote_granted, .. } && vote_granted
}

/// The vote a granting reply carries.
pub open spec fn grant_of(m: MessageView) -> (u64, Seq<char>) {
    (m->RequestVoteReply_term, m->RequestVoteReply_voter_id)
}

/// How a member may move, as far as votes go: `b` is `a` after one move, and
/// `brought` is the vote (term, voter) granted by the message the move
/// handled, if any. Its identity and peers stay; its term never falls; a
/// vote stands for the rest of its term; a candidate or leader counts the
/// votes it counted in the same term plus at most the one brought, or has
/// just started an election voting for itself; a new leader holds a
/// majority; the granting replies it queues are old ones or record its own
/// vote in its term.
pub open spec fn votes_move(a: NodeView, b: NodeView, brought: Option<(u64, Seq<char>)>) -> bool {
    &&& b.id == a.id
    &&& b.peers == a.peers
    &&& a.current_term <= b.current_term
    &&& (a.current_term == b.current_term && a.voted_for is Some ==> b.voted_for == a.voted_for)
    &&& (b.role != Role::Follower ==> {
        ||| (a.role != Role::Follower && a.current_term == b.current_term && forall|w: Seq<char>|
            #[trigger] b.votes.contains(w) ==> a.votes.contains(w) || brought == Some((a.current_term, w)))
        ||| (a.current_term < b.current_term && b.votes == Set::<Seq<char>>::empty().insert(b.id)
            && b.voted_for == Some(b.id))
    })
    &&& (b.role == Role::Leader ==> (a.role == Role::Leader && b.votes == a.votes) || b.votes.len() >= b.majority())
    &&& forall|k: int|
        #![trigger b.outgoing[k]]
        0 <= k < b.outgoing.len() && is_grant(b.outgoing[k].message) ==> (k < a.outgoing.len()
            && b.outgoing[k] == a.outgoing[k]) || (grant_of(b.outgoing[k].message) == (b.current_term, b.id)
            && b.voted_for == Some(b.outgoing[k].to))
}

/// A tick moves by the voting rules.
pub proof fn lemma_tick_moves(a: NodeView)
    requires
        a.tick_resets_timer() ==> a.current_term < u64::MAX,
    ensures
        votes_move(a, a.tick(), None),
{
    assert(Set::<Seq<char>>::empty().insert(a.id).len() == 1);
}

/// The vote a message grants, if it grants one.
pub open spec fn brought_by(m: MessageView) -> Option<(u64, Seq<char>)> {
    if is_grant(m) {
        Some(grant_of(m))
    } else {
        None
    }
}

/// Handling a message moves by the voting rules.
pub proof fn lemma_step_moves(a: NodeView, from: Seq<char>, m: MessageView)
    ensures
        votes_move(a, a.step(from, m), brought_by(m)),
{
    let b = a.step(from, m);
    crate::raft::laws::lemma_step_term_monotonic(a, from, m);
    if a.current_term == b.current_term && a.voted_for is Some {
        crate::raft::laws::lemma_vote_kept_within_term(a, from, m);
    }
    if b.role != Role::Follower {
        assert forall|w: Seq<char>| #[trigger] b.votes.contains(w) implies a.votes.contains(w) || brought_by(m) == Some(
            (a.current_term, w),
        ) by {
            crate::raft::laws::lemma_counts_only_granted_votes(a, from, m, w);
        }
    }
    if b.role == Role::Leader && a.role != Role::Leader {
        crate::raft::laws::lemma_leads_only_with_majority(a, from, m);
    }
}

/// Draining moves by the voting rules: nothing about votes changes and the
/// queue empties.
pub proof fn lemma_drain_moves(a: NodeView)
    ensures
        votes_move(a, a.drained(), None),
{
}

/// A proposal moves by the voting rules.
pub proof fn lemma_propose_moves(a: NodeView, command: Seq<u8>)
    ensures
        votes_move(a, a.propose(command), None),
{
}

/// A new election timeout changes nothing about votes.
pub proof fn lemma_timeout_moves(a: NodeView, b: NodeView, brought: Option<(u64, Seq<char>)>, t: u64)
    requires
        votes_move(a, b, brought),
    ensures
        votes_move(a, b.with_timeout(t), brought),
{
}

/// The members' ids are distinct and theirs, each counts the whole cluster
/// in its peers, and a leader holds a majority of votes.
pub open spec fn shaped(nodes: Seq<NodeView>, ids: Seq<Seq<char>>) -> bool {
    &&& nodes.len() == ids.len()
    &&& ids.no_duplicates()
    &&& forall|i: int|
        #![trigger nodes[i]]
        0 <= i < nodes.len() ==> nodes[i].id == ids[i] && nodes[i].peers.len() + 1 == nodes.len() && (
        nodes[i].role == Role::Leader ==> nodes[i].votes.len() >= nodes[i].majority())
}

/// The record `cast` is true of the members `nodes`: each current vote is in
/// it; it holds one candidate per voter and term; a member's recorded votes
/// are of terms it has reached, and in its current term it still holds the
/// recorded one; every voter is a member; the votes a candidate or leader
/// counts are recorded votes for it in its term; and every granting reply
/// queued is a recorded vote.
pub open spec fn records(nodes: Seq<NodeView>, ids: Seq<Seq<char>>, cast: Set<Ballot>) -> bool {
    &&& forall|i: int|
        #![trigger nodes[i]]
        0 <= i < nodes.len() && nodes[i].voted_for is Some ==> cast.contains(
            (nodes[i].id, nodes[i].current_term, nodes[i].voted_for->0),
        )
    &&& forall|w: Seq<char>, t: u64, c1: Seq<char>, c2: Seq<char>|
        #![trigger cast.contains((w, t, c1)), cast.contains((w, t, c2))]
        cast.contains((w, t, c1)) && cast.contains((w, t, c2)) ==> c1 == c2
    &&& forall|i: int, t: u64, c: Seq<char>|
        #![trigger cast.contains((nodes[i].id, t, c))]
        0 <= i < nodes.len() && cast.contains((nodes[i].id, t, c)) ==> t <= nodes[i].current_term && (t
            == nodes[i].current_term ==> nodes[i].voted_for == Some(c))
    &&& forall|w: Seq<char>, t: u64, c: Seq<char>| #[trigger] cast.contains((w, t, c)) ==> ids.contains(w)
    &&& forall|i: int, w: Seq<char>|
        #![trigger nodes[i].votes.contains(w)]
        0 <= i < nodes.len() && nodes[i].role != Role::Follower && nodes[i].votes.contains(w) ==> cast.contains(
            (w, nodes[i].current_term, nodes[i].id),
        )
    &&& forall|i: int, k: int|
        #![trigger nodes[i].outgoing[k]]
        0 <= i < nodes.len() && 0 <= k < nodes[i].outgoing.len() && is_grant(nodes[i].outgoing[k].message)
            ==> cast.contains(
            (grant_of(nodes[i].outgoing[k].message).1, grant_of(nodes[i].outgoing[k].message).0, nodes[i].outgoing[k].to),
        )
}

/// The vote a member holds, as a record.
pub open spec fn recorded(b: NodeView) -> Set<Ballot> {
    if b.voted_for is Some {
        Set::empty().insert((b.id, b.current_term, b.voted_for->0))
    } else {
        Set::empty()
    }
}

/// One member moving by the voting rules keeps the shape, and the record
/// with the member's vote added stays true; a vote the move brought must
/// already be recorded.
#[verifier::spinoff_prover]
pub proof fn lemma_move_keeps_records(
    nodes: Seq<NodeView>,
    ids: Seq<Seq<char>>,
    cast: Set<Ballot>,
    j: int,
    b: NodeView,
    brought: Option<(u64, Seq<char>)>,
)
    requires
        shaped(nodes, ids),
        records(nodes, ids, cast),
        0 <= j < nodes.len(),
        votes_move(nodes[j], b, brought),
        brought matches Some((t, w)) ==> cast.contains((w, t, nodes[j].id)),
    ensures
        shaped(nodes.update(j, b), ids),
        records(nodes.update(j, b), ids, cast + recorded(b)),
{
    let a = nodes[j];
    let n2 = nodes.update(j, b);
    let c2 = cast + recorded(b);
    assert(a.id == ids[j]);
    assert forall|i: int| #![trigger n2[i]] 0 <= i < n2.len() implies n2[i].id == ids[i] && n2[i].peers.len() + 1
        == n2.len() && (n2[i].role == Role::Leader ==> n2[i].votes.len() >= n2[i].majority()) by {
        if i != j {
            assert(n2[i] == nodes[i]);
        }
    }
    assert forall|i: int| #![trigger n2[i]] 0 <= i < n2.len() && n2[i].voted_for is Some implies c2.contains(
        (n2[i].id, n2[i].current_term, n2[i].voted_for->0),
    ) by {
        if i != j {
            assert(n2[i] == nodes[i]);
        }
    }
    assert forall|w: Seq<char>, t: u64, c: Seq<char>, d: Seq<char>|
        #![trigger c2.contains((w, t, c)), c2.contains((w, t, d))]
        c2.contains((w, t, c)) && c2.contains((w, t, d)) implies c == d by {
        if !cast.contains((w, t, c)) || !cast.contains((w, t, d)) {
            // One of them is the member's own vote.
            assert(w == a.id && t == b.current_term);
            if cast.contains((w, t, c)) {
                assert(cast.contains((nodes[j].id, t, c)));
                assert(b.voted_for == Some(d));
            } else if cast.contains((w, t, d)) {
                assert(cast.contains((nodes[j].id, t, d)));
                assert(b.voted_for == Some(c));
            }
        }
    }
    assert forall|i: int, t: u64, c: Seq<char>|
        #![trigger c2.contains((n2[i].id, t, c))]
        0 <= i < n2.len() && c2.contains((n2[i].id, t, c)) implies t <= n2[i].current_term && (t
            == n2[i].current_term ==> n2[i].voted_for == Some(c)) by {
        if i != j {
            assert(n2[i] == nodes[i]);
            if !cast.contains((n2[i].id, t, c)) {
                assert(n2[i].id == b.id);
                assert(ids[i] == ids[j]);
            }
        } else if cast.contains((nodes[j].id, t, c)) {
            assert(t <= a.current_term);
        }
    }
    assert forall|w: Seq<char>, t: u64, c: Seq<char>| #[trigger] c2.contains((w, t, c)) implies ids.contains(w) by {
        if !cast.contains((w, t, c)) {
            assert(w == ids[j]);
        }
    }
    assert forall|i: int, w: Seq<char>|
        #![trigger n2[i].votes.contains(w)]
        0 <= i < n2.len() && n2[i].role != Role::Follower && n2[i].votes.contains(w) implies c2.contains(
            (w, n2[i].current_term, n2[i].id),
        ) by {
        if i != j {
            assert(n2[i] == nodes[i]);
        } else if a.role != Role::Follower && a.current_term == b.current_term && a.votes.contains(w) {
            assert(cast.contains((w, a.current_term, a.id)));
        } else if a.role != Role::Follower && a.current_term == b.current_term {
            assert(brought == Some((a.current_term, w)));
        } else {
            assert(w == b.id);
        }
    }
    assert forall|i: int, k: int|
        #![trigger n2[i].outgoing[k]]
        0 <= i < n2.len() && 0 <= k < n2[i].outgoing.len() && is_grant(n2[i].outgoing[k].message) implies c2.contains(
            (grant_of(n2[i].outgoing[k].message).1, grant_of(n2[i].outgoing[k].message).0, n2[i].outgoing[k].to),
        ) by {
        if i != j {
            assert(n2[i] == nodes[i]);
        } else if k < a.outgoing.len() && b.outgoing[k] == a.outgoing[k] {
            assert(nodes[j].outgoing[k] == b.outgoing[k]);
        }
    }
}

/// Election safety: where the record is true, no two members lead in the
/// same term.
pub proof fn lemma_one_leader_per_term(
    nodes: Seq<NodeView>,
    ids: Seq<Seq<char>>,
    cast: Set<Ballot>,
    i: int,
    j: int,
)
    requires
        shaped(nodes, ids),
        records(nodes, ids, cast),
        0 <= i < nodes.len(),
        0 <= j < nodes.len(),
        nodes[i].role == Role::Leader,
        nodes[j].role == Role::Leader,
        nodes[i].current_term == nodes[j].current_term,
    ensures
        i == j,
{
    let t = nodes[i].current_term;
    let u = ids.to_set();
    ids.unique_seq_to_set();
    vstd::seq_lib::seq_to_set_is_finite(ids);
    let a = nodes[i];
    let b = nodes[j];
    assert forall|w: Seq<char>| a.votes.contains(w) implies u.contains(w) by {
        assert(cast.contains((w, t, a.id)));
    }
    assert forall|w: Seq<char>| b.votes.contains(w) implies u.contains(w) by {
        assert(cast.contains((w, t, b.id)));
    }
    let vote_of = Map::new(
        |w: Seq<char>| exists|c: Seq<char>| cast.contains((w, t, c)),
        |w: Seq<char>| choose|c: Seq<char>| cast.contains((w, t, c)),
    );
    assert forall|w: Seq<char>| #[trigger] a.votes.contains(w) implies vote_of.contains_key(w) && vote_of[w] == a.id by {
        assert(cast.contains((w, t, a.id)));
        let c = choose|c: Seq<char>| cast.contains((w, t, c));
        assert(cast.contains((w, t, c)));
    }
    assert forall|w: Seq<char>| #[trigger] b.votes.contains(w) implies vote_of.contains_key(w) && vote_of[w] == b.id by {
        assert(cast.contains((w, t, b.id)));
        let c = choose|c: Seq<char>| cast.contains((w, t, c));
        assert(cast.contains((w, t, c)));
    }
    crate::raft::laws::lemma_majorities_elect_one(a, b, u, vote_of);
    assert(ids[i] == ids[j]);
}

/// Staying put moves by the voting rules.
pub proof fn lemma_stay_moves(a: NodeView)
    ensures
        votes_move(a, a, None),
{
}

/// The granting replies on a bus are recorded votes for their addressee.
pub open spec fn bus_recorded(bus: Seq<BusItem>, ids: Seq<Seq<char>>, cast: Set<Ballot>) -> bool {
    forall|k: int|
        #![trigger bus[k]]
        0 <= k < bus.len() && is_grant(bus[k].2) ==> 0 <= bus[k].0 < ids.len() && cast.contains(
            (grant_of(bus[k].2).1, grant_of(bus[k].2).0, ids[bus[k].0]),
        )
}

/// The position `position_of` finds holds the id.
proof fn lemma_position_of_some(ids: Seq<Seq<char>>, id: Seq<char>)
    requires
        position_of(ids, id) is Some,
    ensures
        0 <= position_of(ids, id)->0 < ids.len(),
        ids[position_of(ids, id)->0] == id,
{
    let i = choose|i: int| 0 <= i < ids.len() && ids[i] == id;
    lemma_first_position(ids, id, i);
}

/// Where `id` occurs, it has a first occurrence.
proof fn lemma_first_position(ids: Seq<Seq<char>>, id: Seq<char>, i: int)
    requires
        0 <= i < ids.len(),
        ids[i] == id,
    ensures
        exists|f: int| 0 <= f < ids.len() && ids[f] == id && forall|j: int| 0 <= j < f ==> ids[j] != id,
    decreases i,
{
    if exists|j: int| 0 <= j < i && ids[j] == id {
        let j = choose|j: int| 0 <= j < i && ids[j] == id;
        lemma_first_position(ids, id, j);
    } else {
        assert(0 <= i < ids.len() && ids[i] == id && forall|j: int| 0 <= j < i ==> ids[j] != id);
    }
}

/// Routing queued envelopes whose granting replies are recorded puts on the
/// bus only recorded grants.
proof fn lemma_routed_recorded(envs: Seq<EnvelopeView>, ids: Seq<Seq<char>>, from: int, cast: Set<Ballot>)
    requires
        forall|k: int|
            #![trigger envs[k]]
            0 <= k < envs.len() && is_grant(envs[k].message) ==> cast.contains(
                (grant_of(envs[k].message).1, grant_of(envs[k].message).0, envs[k].to),
            ),
    ensures
        bus_recorded(routed(envs, ids, from), ids, cast),
    decreases envs.len(),
{
    if envs.len() > 0 {
        let rest = envs.drop_last();
        assert forall|k: int|
            #![trigger rest[k]]
            0 <= k < rest.len() && is_grant(rest[k].message) implies cast.contains(
                (grant_of(rest[k].message).1, grant_of(rest[k].message).0, rest[k].to),
            ) by {
            assert(rest[k] == envs[k]);
        }
        lemma_routed_recorded(rest, ids, from, cast);
        let r = routed(rest, ids, from);
        let e = envs.last();
        assert(e == envs[envs.len() - 1]);
        match position_of(ids, e.to) {
            Some(p) => {
                lemma_position_of_some(ids, e.to);
                let all = r + seq![(p, from, e.message)];
                assert forall|k: int| #![trigger all[k]] 0 <= k < all.len() && is_grant(all[k].2) implies 0 <= all[k].0
                    < ids.len() && cast.contains((grant_of(all[k].2).1, grant_of(all[k].2).0, ids[all[k].0])) by {
                    if k < r.len() {
                        assert(all[k] == r[k]);
                    }
                }
            },
            None => {
                assert(routed(envs, ids, from) =~= r);
            },
        }
    }
}

/// What the first `k` members send is made of recorded grants.
proof fn lemma_bus_of_recorded(nodes: Seq<NodeView>, alive: Seq<bool>, ids: Seq<Seq<char>>, cast: Set<Ballot>, k: int)
    requires
        records(nodes, ids, cast),
        k <= nodes.len(),
    ensures
        bus_recorded(bus_of(nodes, alive, ids, k), ids, cast),
    decreases k,
{
    if k > 0 {
        lemma_bus_of_recorded(nodes, alive, ids, cast, k - 1);
        let r = bus_of(nodes, alive, ids, k - 1);
        if alive[k - 1] {
            let envs = nodes[k - 1].apply_committed().outgoing;
            assert(envs == nodes[k - 1].outgoing);
            assert forall|q: int|
                #![trigger envs[q]]
                0 <= q < envs.len() && is_grant(envs[q].message) implies cast.contains(
                    (grant_of(envs[q].message).1, grant_of(envs[q].message).0, envs[q].to),
                ) by {
                assert(nodes[k - 1].outgoing[q] == envs[q]);
            }
            lemma_routed_recorded(envs, ids, k - 1, cast);
            let x = routed(envs, ids, k - 1);
            let all = r + x;
            assert forall|q: int| #![trigger all[q]] 0 <= q < all.len() && is_grant(all[q].2) implies 0 <= all[q].0
                < ids.len() && cast.contains((grant_of(all[q].2).1, grant_of(all[q].2).0, ids[all[q].0])) by {
                if q < r.len() {
                    assert(all[q] == r[q]);
                } else {
                    assert(all[q] == x[q - r.len()]);
                }
            }
        } else {
            assert(bus_of(nodes, alive, ids, k) =~= r);
        }
    }
}

/// A larger record keeps a bus recorded.
proof fn lemma_bus_recorded_grows(bus: Seq<BusItem>, ids: Seq<Seq<char>>, cast: Set<Ballot>, more: Set<Ballot>)
    requires
        bus_recorded(bus, ids, cast),
        cast.subset_of(more),
    ensures
        bus_recorded(bus, ids, more),
{
}

/// Delivering a recorded bus keeps the shape and a record true.
#[verifier::spinoff_prover]
proof fn lemma_delivery_keeps_records(
    nodes: Seq<NodeView>,
    drawn: Seq<Seq<(u64, u64)>>,
    seeds: Seq<u64>,
    alive: Seq<bool>,
    connected: Seq<bool>,
    ids: Seq<Seq<char>>,
    bus: Seq<BusItem>,
    cast: Set<Ballot>,
) -> (more: Set<Ballot>)
    requires
        shaped(nodes, ids),
        records(nodes, ids, cast),
        bus_recorded(bus, ids, cast),
        drawn.len() == nodes.len(),
    ensures
        shaped(delivered(nodes, drawn, seeds, alive, connected, ids, bus).0, ids),
        records(delivered(nodes, drawn, seeds, alive, connected, ids, bus).0, ids, more),
        cast.subset_of(more),
    decreases bus.len(),
{
    if bus.len() == 0 {
        cast
    } else {
        let front = bus.drop_last();
        assert forall|k: int| #![trigger front[k]] 0 <= k < front.len() && is_grant(front[k].2) implies 0 <= front[k].0
            < ids.len() && cast.contains((grant_of(front[k].2).1, grant_of(front[k].2).0, ids[front[k].0])) by {
            assert(front[k] == bus[k]);
        }
        let c1 = lemma_delivery_keeps_records(nodes, drawn, seeds, alive, connected, ids, front, cast);
        lemma_delivered_len(nodes, drawn, seeds, alive, connected, ids, front);
        let (ns, ds) = delivered(nodes, drawn, seeds, alive, connected, ids, front);
        let (to, from, m) = bus.last();
        assert(bus.last() == bus[bus.len() - 1]);
        if 0 <= to < ns.len() && 0 <= from < ns.len() && alive[from] && alive[to] && connected[from] && connected[to]
            && ns[to].accepts(m) {
            let v = seeded_step(ns[to], seeds[to], ds[to], ids[from], m).0;
            lemma_step_moves(ns[to], ids[from], m);
            if ns[to].step_resets_timer(m) {
                lemma_timeout_moves(
                    ns[to],
                    ns[to].step(ids[from], m),
                    brought_by(m),
                    v.election_timeout,
                );
            }
            assert(votes_move(ns[to], v, brought_by(m)));
            assert(ns[to].id == ids[to]);
            lemma_move_keeps_records(ns, ids, c1, to, v, brought_by(m));
            c1 + recorded(v)
        } else {
            c1
        }
    }
}

/// Delivering a bus keeps one entry per member.
proof fn lemma_delivered_len(
    nodes: Seq<NodeView>,
    drawn: Seq<Seq<(u64, u64)>>,
    seeds: Seq<u64>,
    alive: Seq<bool>,
    connected: Seq<bool>,
    ids: Seq<Seq<char>>,
    bus: Seq<BusItem>,
)
    requires
        drawn.len() == nodes.len(),
    ensures
        delivered(nodes, drawn, seeds, alive, connected, ids, bus).0.len() == nodes.len(),
        delivered(nodes, drawn, seeds, alive, connected, ids, bus).1.len() == nodes.len(),
    decreases bus.len(),
{
    if bus.len() > 0 {
        lemma_delivered_len(nodes, drawn, seeds, alive, connected, ids, bus.drop_last());
    }
}

/// The members with the first `k` of them ticked.
spec fn ticked_prefix(s: SimState, k: int) -> Seq<NodeView> {
    Seq::new(s.members(), |j: int| if j < k { s.after_tick().nodes[j] } else { s.nodes[j] })
}

/// Ticking the first `k` members keeps the shape and a record true.
proof fn lemma_tick_prefix(s: SimState, cast: Set<Ballot>, k: int) -> (more: Set<Ballot>)
    requires
        s.wf(),
        shaped(s.nodes, s.ids),
        records(s.nodes, s.ids, cast),
        0 <= k <= s.members(),
    ensures
        shaped(ticked_prefix(s, k), s.ids),
        records(ticked_prefix(s, k), s.ids, more),
    decreases k,
{
    if k == 0 {
        assert(ticked_prefix(s, 0) =~= s.nodes);
        cast
    } else {
        let c1 = lemma_tick_prefix(s, cast, k - 1);
        let p = ticked_prefix(s, k - 1);
        let j = k - 1;
        let a = s.nodes[j];
        assert(p[j] == a);
        let b = s.after_tick().nodes[j];
        if s.alive[j] && a.current_term < u64::MAX {
            lemma_tick_moves(a);
            if a.tick_resets_timer() {
                lemma_timeout_moves(a, a.tick(), None, b.election_timeout);
            }
        } else {
            lemma_stay_moves(a);
        }
        assert(votes_move(a, b, None));
        lemma_move_keeps_records(p, s.ids, c1, j, b, None);
        assert(p.update(j, b) =~= ticked_prefix(s, k));
        c1 + recorded(b)
    }
}

/// The members with the first `k` of them drained.
spec fn drained_prefix(s: SimState, k: int) -> Seq<NodeView> {
    Seq::new(s.members(), |j: int| if j < k { s.after_drain().nodes[j] } else { s.nodes[j] })
}

/// Draining the first `k` members keeps the shape and a larger record true.
proof fn lemma_drain_prefix(s: SimState, cast: Set<Ballot>, k: int) -> (more: Set<Ballot>)
    requires
        s.wf(),
        shaped(s.nodes, s.ids),
        records(s.nodes, s.ids, cast),
        0 <= k <= s.members(),
    ensures
        shaped(drained_prefix(s, k), s.ids),
        records(drained_prefix(s, k), s.ids, more),
        cast.subset_of(more),
    decreases k,
{
    if k == 0 {
        assert(drained_prefix(s, 0) =~= s.nodes);
        cast
    } else {
        let c1 = lemma_drain_prefix(s, cast, k - 1);
        let p = drained_prefix(s, k - 1);
        let j = k - 1;
        let a = s.nodes[j];
        assert(p[j] == a);
        let b = s.after_drain().nodes[j];
        if s.alive[j] {
            lemma_drain_moves(a);
        } else {
            lemma_stay_moves(a);
        }
        lemma_move_keeps_records(p, s.ids, c1, j, b, None);
        assert(p.update(j, b) =~= drained_prefix(s, k));
        c1 + recorded(b)
    }
}

/// The simulation is safe: its lists agree, its members have distinct ids
/// and count the whole cluster, leaders hold majorities, and some record of
/// the votes cast is true of it.
pub open spec fn safe(s: SimState) -> bool {
    &&& s.wf()
    &&& shaped(s.nodes, s.ids)
    &&& exists|cast: Set<Ballot>| records(s.nodes, s.ids, cast)
}

/// Election safety of a safe simulation: no two members lead in the same
/// term.
pub proof fn lemma_safe_one_leader_per_term(s: SimState, i: int, j: int)
    requires
        safe(s),
        0 <= i < s.members(),
        0 <= j < s.members(),
        s.nodes[i].role == Role::Leader,
        s.nodes[j].role == Role::Leader,
        s.nodes[i].current_term == s.nodes[j].current_term,
    ensures
        i == j,
{
    let cast = choose|c: Set<Ballot>| records(s.nodes, s.ids, c);
    lemma_one_leader_per_term(s.nodes, s.ids, cast, i, j);
}

/// A step keeps the simulation safe.
#[verifier::spinoff_prover]
pub proof fn lemma_step_keeps_safety(s: SimState)
    requires
        safe(s),
    ensures
        safe(s.stepped()),
{
    let cast = choose|c: Set<Ballot>| records(s.nodes, s.ids, c);
    let n = s.members() as int;
    let t = s.after_tick();
    let c1 = lemma_tick_prefix(s, cast, n);
    assert(ticked_prefix(s, n) =~= t.nodes);
    lemma_bus_of_recorded(t.nodes, t.alive, t.ids, c1, n);
    let d = t.after_drain();
    let c2 = lemma_drain_prefix(t, c1, n);
    assert(drained_prefix(t, n) =~= d.nodes);
    lemma_bus_recorded_grows(t.outbox(), t.ids, c1, c2);
    let c3 = lemma_delivery_keeps_records(d.nodes, d.drawn, d.seeds, d.alive, d.connected, d.ids, t.outbox(), c2);
    lemma_delivered_len(d.nodes, d.drawn, d.seeds, d.alive, d.connected, d.ids, t.outbox());
    let r = s.stepped();
    assert(records(r.nodes, r.ids, c3));
}

/// Distinct members have distinct ids.
proof fn lemma_sim_id_injective(i: int, j: int)
    requires
        0 <= i,
        0 <= j,
        sim_id(i) == sim_id(j),
    ensures
        i == j,
{
    reveal_strlit("n");
    let a = ascii_chars(decimal(i as nat));
    let b = ascii_chars(decimal(j as nat));
    assert(a =~= sim_id(i).skip(1));
    assert(b =~= sim_id(j).skip(1));
    let di = decimal(i as nat);
    let dj = decimal(j as nat);
    assert(di =~= dj) by {
        assert(di.len() == a.len() && dj.len() == b.len());
        assert forall|k: int| 0 <= k < di.len() implies #[trigger] di[k] == dj[k] by {
            assert(a[k] == b[k]);
        }
    }
    lemma_decimal_digits(i as nat);
    lemma_decimal_digits(j as nat);
}

/// The ids other than one that does not occur are all of them.
proof fn lemma_others_absent(ids: Seq<Seq<char>>, me: Seq<char>)
    requires
        !ids.contains(me),
    ensures
        others(ids, me).len() == ids.len(),
    decreases ids.len(),
{
    if ids.len() > 0 {
        assert(!ids.drop_last().contains(me)) by {
            if ids.drop_last().contains(me) {
                let k = choose|k: int| 0 <= k < ids.drop_last().len() && ids.drop_last()[k] == me;
                assert(ids[k] == me);
            }
        }
        assert(ids.last() != me) by {
            assert(ids[ids.len() - 1] == ids.last());
        }
        lemma_others_absent(ids.drop_last(), me);
    }
}

/// The ids other than one that occurs once are one fewer.
proof fn lemma_others_present(ids: Seq<Seq<char>>, me: Seq<char>)
    requires
        ids.no_duplicates(),
        ids.contains(me),
    ensures
        others(ids, me).len() + 1 == ids.len(),
    decreases ids.len(),
{
    let front = ids.drop_last();
    assert(front.no_duplicates()) by {
        assert forall|i: int, j: int| 0 <= i < front.len() && 0 <= j < front.len() && i != j implies front[i]
            != front[j] by {
            assert(front[i] == ids[i] && front[j] == ids[j]);
        }
    }
    if ids.last() == me {
        assert(!front.contains(me)) by {
            if front.contains(me) {
                let k = choose|k: int| 0 <= k < front.len() && front[k] == me;
                assert(ids[k] == ids[ids.len() - 1]);
            }
        }
        lemma_others_absent(front, me);
    } else {
        assert(front.contains(me)) by {
            let k = choose|k: int| 0 <= k < ids.len() && ids[k] == me;
            assert(k != ids.len() - 1);
            assert(front[k] == me);
        }
        lemma_others_present(front, me);
    }
}

/// A fresh cluster is safe.
pub proof fn lemma_initial_safe(n: nat, seed: u64)
    ensures
        safe(SimState::initial(n, seed)),
{
    let s = SimState::initial(n, seed);
    let ids = sim_ids(n);
    assert(ids.no_duplicates()) by {
        assert forall|i: int, j: int| 0 <= i < ids.len() && 0 <= j < ids.len() && i != j implies ids[i] != ids[j] by {
            if ids[i] == ids[j] {
                lemma_sim_id_injective(i, j);
            }
        }
    }
    assert forall|i: int| #![trigger s.nodes[i]] 0 <= i < s.nodes.len() implies s.nodes[i].id == ids[i]
        && s.nodes[i].peers.len() + 1 == s.nodes.len() && (s.nodes[i].role == Role::Leader
        ==> s.nodes[i].votes.len() >= s.nodes[i].majority()) by {
        assert(ids[i] == sim_id(i));
        lemma_others_present(ids, sim_id(i));
    }
    let cast = Set::<Ballot>::empty();
    assert(records(s.nodes, s.ids, cast));
}

/// Changing anything but the members' states and ids keeps the simulation
/// safe.
pub proof fn lemma_same_members_keep_safety(s: SimState, t: SimState)
    requires
        safe(s),
        t.wf(),
        t.nodes == s.nodes,
        t.ids == s.ids,
    ensures
        safe(t),
{
    let cast = choose|c: Set<Ballot>| records(s.nodes, s.ids, c);
    assert(records(t.nodes, t.ids, cast));
}

/// A proposal to member `idx` keeps the simulation safe.
pub proof fn lemma_propose_keeps_safety(s: SimState, t: SimState, idx: int, command: Seq<u8>)
    requires
        safe(s),
        0 <= idx < s.members(),
        t.wf(),
        t.nodes == s.nodes.update(idx, s.nodes[idx].propose(command)),
        t.ids == s.ids,
    ensures
        safe(t),
{
    let cast = choose|c: Set<Ballot>| records(s.nodes, s.ids, c);
    lemma_propose_moves(s.nodes[idx], command);
    lemma_move_keeps_records(s.nodes, s.ids, cast, idx, s.nodes[idx].propose(command), None);
    assert(records(t.nodes, t.ids, cast + recorded(s.nodes[idx].propose(command))));
}

} // verus!
