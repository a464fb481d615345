//! Properties of the node model that hold across all inputs: the rules the
//! protocol relies on, proved over the transitions of [`super::model`].

use vstd::prelude::*;

use super::log::EntryView;
use super::message::MessageView;
use super::model::{count_holding, newly_committed, CommittedView, NodeView};
use super::state::Role;

verus! {

/// A node's term never goes backwards, whatever message it handles.
pub proof fn lemma_step_term_monotonic(s: NodeView, from: Seq<char>, m: MessageView)
    ensures
        s.step(from, m).current_term >= s.current_term,
{
}

/// A tick never lowers the term (an election raises it by one).
pub proof fn lemma_tick_term_monotonic(s: NodeView)
    requires
        s.tick_resets_timer() ==> s.current_term < u64::MAX,
    ensures
        s.tick().current_term >= s.current_term,
{
}

/// Any message carrying a higher term makes the node a follower in that term.
pub proof fn lemma_higher_term_forces_step_down(s: NodeView, from: Seq<char>, m: MessageView)
    requires
        m.term() > s.current_term,
    ensures
        s.step(from, m).current_term == m.term(),
        s.step(from, m).role == Role::Follower,
{
}

/// An AppendEntries from a leader with a higher term makes the node follow
/// that leader.
pub proof fn lemma_append_entries_adopts_leader(s: NodeView, from: Seq<char>, m: MessageView)
    requires
        m is AppendEntries,
        m.term() >= s.current_term,
    ensures
        s.step(from, m).role == Role::Follower,
        s.step(from, m).current_term == m.term(),
        s.step(from, m).leader_id == Some(m->AppendEntries_leader_id),
{
}

/// Once a node has voted in its current term, a vote request from another
/// candidate in that same term is refused and the vote stands.
pub proof fn lemma_one_vote_per_term(s: NodeView, from: Seq<char>, m: MessageView)
    requires
        s.voted_for is Some,
        m is RequestVote,
        m.term() == s.current_term,
        s.voted_for != Some(m->RequestVote_candidate_id),
    ensures
        s.step(from, m).voted_for == s.voted_for,
        s.step(from, m).current_term == s.current_term,
        s.step(from, m).outgoing.last().message == (MessageView::RequestVoteReply {
            term: s.current_term,
            voter_id: s.id,
            vote_granted: false,
        }),
        s.step(from, m).outgoing.last().to == m->RequestVote_candidate_id,
{
}

/// A vote, once cast, is kept for the rest of the term, whatever message
/// arrives.
pub proof fn lemma_vote_kept_within_term(s: NodeView, from: Seq<char>, m: MessageView)
    requires
        s.voted_for is Some,
        s.step(from, m).current_term == s.current_term,
    ensures
        s.step(from, m).voted_for == s.voted_for,
{
}

/// A granted vote is recorded: the reply granting it carries the node's
/// term, and the node has voted for that candidate in that term. With
/// [`lemma_vote_kept_within_term`] and [`lemma_one_vote_per_term`], every
/// vote a node grants in a term goes to one candidate.
pub proof fn lemma_granted_vote_is_recorded(s: NodeView, from: Seq<char>, m: MessageView)
    requires
        m is RequestVote,
    ensures
        ({
            let t = s.step(from, m);
            (t.outgoing.last().message matches MessageView::RequestVoteReply { term, vote_granted, .. }
                && vote_granted) ==> {
                &&& t.voted_for == Some(m->RequestVote_candidate_id)
                &&& t.outgoing.last().to == m->RequestVote_candidate_id
                &&& t.outgoing.last().message->RequestVoteReply_term == t.current_term
            }
        }),
{
}

/// A successful AppendEntries reports the highest index the follower now
/// stores: the last index of its log after the merge, entries it kept
/// beyond what the leader sent included. When the leader's commit index is
/// ahead, the commit index becomes the smaller of it and that last index.
pub proof fn lemma_append_reports_last_stored_index(s: NodeView, from: Seq<char>, m: MessageView)
    requires
        m matches MessageView::AppendEntries { term, prev_log_index, prev_log_term, .. } && term
            >= s.current_term && s.log.matches(prev_log_index as int, prev_log_term),
    ensures
        ({
            let t = s.step(from, m);
            let last = s.log.merged(
                m->AppendEntries_prev_log_index + 1,
                m->AppendEntries_entries,
            ).last_index();
            &&& t.log == s.log.merged(m->AppendEntries_prev_log_index + 1, m->AppendEntries_entries)
            &&& t.outgoing.last().to == m->AppendEntries_leader_id
            &&& t.outgoing.last().message == (MessageView::AppendEntriesReply {
                term: m->AppendEntries_term,
                follower_id: s.id,
                success: true,
                match_index: last as u64,
                conflict_index: 0,
            })
            &&& t.commit_index == if m->AppendEntries_leader_commit > s.commit_index {
                if m->AppendEntries_leader_commit <= last {
                    m->AppendEntries_leader_commit as int
                } else {
                    last
                }
            } else {
                s.commit_index as int
            }
            &&& t.role == Role::Follower
            &&& t.leader_id == Some(m->AppendEntries_leader_id)
        }),
{
}

/// The leader of record: whenever a node leads, it names itself as leader.
pub open spec fn leads_as_itself(s: NodeView) -> bool {
    s.role == Role::Leader ==> s.leader_id == Some(s.id)
}

/// Handling a message keeps "a leader names itself as leader".
pub proof fn lemma_step_keeps_leader_identity(s: NodeView, from: Seq<char>, m: MessageView)
    requires
        leads_as_itself(s),
    ensures
        leads_as_itself(s.step(from, m)),
{
}

/// A tick keeps "a leader names itself as leader".
pub proof fn lemma_tick_keeps_leader_identity(s: NodeView)
    requires
        leads_as_itself(s),
    ensures
        leads_as_itself(s.tick()),
{
}

/// A proposal keeps "a leader names itself as leader".
pub proof fn lemma_propose_keeps_leader_identity(s: NodeView, command: Seq<u8>)
    requires
        leads_as_itself(s),
    ensures
        leads_as_itself(s.propose(command)),
{
}

/// Searching for a commit point never goes below the current commit index.
pub proof fn lemma_commit_search_monotonic(s: NodeView, n: int)
    requires
        n <= u64::MAX,
    ensures
        s.commit_search(n) >= s.commit_index,
    decreases n - s.commit_index,
{
    if n > s.commit_index && !s.can_commit(n) {
        lemma_commit_search_monotonic(s, n - 1);
    }
}

/// A commit point found by the search is one a majority holds, in the
/// current term.
pub proof fn lemma_commit_search_needs_majority(s: NodeView, n: int)
    requires
        n <= u64::MAX,
    ensures
        s.commit_search(n) > s.commit_index ==> s.can_commit(s.commit_search(n) as int),
    decreases n - s.commit_index,
{
    if n > s.commit_index && !s.can_commit(n) {
        lemma_commit_search_needs_majority(s, n - 1);
    }
}

/// A leader raises its commit index only to an entry of its current term
/// that a majority of the cluster holds: writes are acknowledged only once
/// a majority has them.
pub proof fn lemma_leader_commits_only_majority_entries(s: NodeView)
    requires
        s.log.last_index() < u64::MAX,
    ensures
        s.advance_commit().commit_index > s.commit_index ==> {
            &&& s.role == Role::Leader
            &&& s.can_commit(s.advance_commit().commit_index as int)
        },
{
    if s.role == Role::Leader {
        lemma_commit_search_needs_majority(s, s.log.last_index() as int);
    }
}

/// The commit index never decreases, except when a snapshot is installed
/// or an AppendEntries cuts the log below the commit index.
pub proof fn lemma_step_commit_monotonic(s: NodeView, from: Seq<char>, m: MessageView)
    requires
        s.inv(),
        !(m is InstallSnapshot),
        m matches MessageView::AppendEntries { term, prev_log_index, prev_log_term, entries, .. } ==> (term
            >= s.current_term && s.log.matches(prev_log_index as int, prev_log_term) ==> s.log.merged(
            prev_log_index + 1,
            entries,
        ).last_index() >= s.commit_index),
    ensures
        s.step(from, m).commit_index >= s.commit_index,
{
    let o = s.observe_term(m.term());
    lemma_commit_search_monotonic(o, o.log.last_index());
    match m {
        MessageView::RequestVoteReply { term, voter_id, vote_granted } => {
            if o.role == Role::Candidate && term == o.current_term && vote_granted {
                let v = NodeView { votes: o.votes.insert(voter_id), ..o };
                let b = NodeView {
                    role: Role::Leader,
                    leader_id: Some(v.id),
                    next_index: super::state::uniform_map(v.peers, (v.log.last_index() + 1) as u64),
                    match_index: super::state::uniform_map(v.peers, 0),
                    heartbeat_elapsed: 0,
                    ..v
                }.broadcast_append();
                lemma_commit_search_monotonic(b, b.log.last_index());
                assert(b.commit_index == s.commit_index);
                if v.votes.len() >= v.majority() {
                    assert(s.step(from, m) == v.become_leader());
                    assert(v.become_leader() == b.advance_commit());
                    assert(b.advance_commit().commit_index >= s.commit_index);
                } else {
                    assert(s.step(from, m) == v);
                }
            } else {
                assert(s.step(from, m).commit_index == o.commit_index);
            }
            assert(s.step(from, m).commit_index >= s.commit_index);
        },
        MessageView::AppendEntries { term, leader_id, prev_log_index, prev_log_term, entries, .. } => {
            if term >= o.current_term {
                let f = o.become_follower(term, Some(leader_id));
                if f.log.matches(prev_log_index as int, prev_log_term) {
                    super::log::lemma_merge_lower_bound(f.log, prev_log_index + 1, entries);
                }
            }
        },
        MessageView::AppendEntriesReply { term, success, match_index, .. } => {
            if o.role == Role::Leader && term == o.current_term && success {
                let r = NodeView {
                    match_index: o.match_index.insert(from, match_index),
                    next_index: o.next_index.insert(from, (match_index + 1) as u64),
                    ..o
                };
                lemma_commit_search_monotonic(r, r.log.last_index());
                assert(s.step(from, m) == r.advance_commit());
            }
        },
        _ => {},
    }
}

/// A leader's proposal lands at the next index, carrying the command in the
/// leader's current term.
pub proof fn lemma_propose_appends_in_current_term(s: NodeView, command: Seq<u8>)
    requires
        s.role == Role::Leader,
    ensures
        s.propose(command).log.last_index() == s.log.last_index() + 1,
        s.propose(command).log.entry(s.log.last_index() + 1) == Some(
            EntryView { term: s.current_term, command },
        ),
        forall|i: int| i <= s.log.last_index() ==> #[trigger] s.propose(command).log.term_at(i) == s.log.term_at(i),
{
    let p = s.propose(command);
    assert forall|i: int| i <= s.log.last_index() implies #[trigger] p.log.term_at(i) == s.log.term_at(i) by {
        if s.log.snapshot_index < i {
            assert(p.log.entries[i - s.log.snapshot_index - 1] == s.log.entries[i - s.log.snapshot_index - 1]);
        }
    }
}

/// Alone in its cluster, a node whose election timer fires becomes leader
/// at once.
pub proof fn lemma_single_node_elects_itself(s: NodeView)
    requires
        s.peers.len() == 0,
        s.tick_resets_timer(),
        s.current_term < u64::MAX,
    ensures
        s.tick().role == Role::Leader,
        s.tick().current_term == s.current_term + 1,
{
}

/// Alone in its cluster, a leader commits a proposal immediately.
pub proof fn lemma_single_node_commits_on_propose(s: NodeView, command: Seq<u8>)
    requires
        s.peers.len() == 0,
        s.role == Role::Leader,
        s.commit_index <= s.log.last_index(),
        s.log.last_index() < u64::MAX,
    ensures
        s.propose(command).commit_index == s.log.last_index() + 1,
{
    let a = NodeView {
        log: s.log.appended(seq![EntryView { term: s.current_term, command }]),
        ..s
    }.broadcast_append();
    assert(count_holding(a.peers, a.match_index, a.log.last_index()) == 0);
    assert(a.log.entry(a.log.last_index()) == Some(EntryView { term: s.current_term, command }));
    assert(a.can_commit(a.log.last_index()));
}

/// Draining outputs applies everything committed: afterwards the applied
/// index has caught up with the commit index.
pub proof fn lemma_drain_applies_committed(s: NodeView)
    ensures
        s.drained().last_applied >= s.commit_index,
        s.drained().commit_index == s.commit_index,
        s.drained().outgoing.len() == 0,
        s.drained().committed.len() == 0,
{
}

/// A node comes to lead only holding a majority of votes in its term,
/// whether a message or a tick makes it leader.
pub proof fn lemma_leads_only_with_majority(s: NodeView, from: Seq<char>, m: MessageView)
    requires
        s.role != Role::Leader,
    ensures
        s.step(from, m).role == Role::Leader ==> s.step(from, m).votes.len() >= s.step(from, m).majority(),
        s.tick().role == Role::Leader ==> s.tick().votes.len() >= s.tick().majority(),
{
    assert(Set::<Seq<char>>::empty().insert(s.id).len() == 1);
}

/// The votes a candidate or leader holds after a message are those it held
/// in the same term before, plus at most the voter of a granted reply of
/// that term.
pub proof fn lemma_counts_only_granted_votes(s: NodeView, from: Seq<char>, m: MessageView, w: Seq<char>)
    requires
        s.step(from, m).role != Role::Follower,
        s.step(from, m).votes.contains(w),
    ensures
        s.role != Role::Follower,
        s.current_term == s.step(from, m).current_term,
        s.votes.contains(w) || m == (MessageView::RequestVoteReply {
            term: s.current_term,
            voter_id: w,
            vote_granted: true,
        }),
{
}

/// After a tick, a candidate or leader holds either the votes it held in
/// the same term before, or, having just started an election in the next
/// term, its own vote alone.
pub proof fn lemma_tick_counts_own_vote(s: NodeView)
    requires
        s.tick_resets_timer() ==> s.current_term < u64::MAX,
        s.tick().role != Role::Follower,
    ensures
        (s.role != Role::Follower && s.current_term == s.tick().current_term && s.tick().votes == s.votes)
            || (s.tick().current_term == s.current_term + 1 && s.tick().votes == Set::<Seq<char>>::empty().insert(s.id)
            && s.tick().voted_for == Some(s.id)),
{
}

/// The counting half of election safety. Take two nodes of one cluster,
/// each holding at least a majority of votes from that cluster's members,
/// and a record of whom each member voted for (`vote_of`) that every vote
/// they hold agrees with. Then some member voted for both, so they are the
/// same candidate: with one vote per member per term
/// ([`lemma_one_vote_per_term`]), one term has at most one winner.
pub proof fn lemma_majorities_elect_one(
    a: NodeView,
    b: NodeView,
    cluster: Set<Seq<char>>,
    vote_of: Map<Seq<char>, Seq<char>>,
)
    requires
        cluster.finite(),
        a.peers.len() + 1 == cluster.len(),
        b.peers.len() + 1 == cluster.len(),
        a.votes.subset_of(cluster),
        b.votes.subset_of(cluster),
        a.votes.len() >= a.majority(),
        b.votes.len() >= b.majority(),
        forall|v: Seq<char>| #[trigger] a.votes.contains(v) ==> vote_of.contains_key(v) && vote_of[v] == a.id,
        forall|v: Seq<char>| #[trigger] b.votes.contains(v) ==> vote_of.contains_key(v) && vote_of[v] == b.id,
    ensures
        a.id == b.id,
{
    vstd::set_lib::lemma_len_subset(a.votes, cluster);
    vstd::set_lib::lemma_len_subset(b.votes, cluster);
    vstd::set_lib::lemma_set_intersect_union_lens(a.votes, b.votes);
    assert((a.votes + b.votes).subset_of(cluster));
    vstd::set_lib::lemma_len_subset(a.votes + b.votes, cluster);
    let n = cluster.len() as int;
    assert(2 * (n / 2 + 1) > n) by (nonlinear_arith);
    assert(a.votes.intersect(b.votes).len() > 0);
    let v = a.votes.intersect(b.votes).choose();
    assert(a.votes.intersect(b.votes).contains(v)) by {
        vstd::set_lib::lemma_set_empty_equivalency_len(a.votes.intersect(b.votes));
    }
    assert(a.votes.contains(v) && b.votes.contains(v));
}

/// A vote goes only to a candidate whose log is at least as up to date as
/// the voter's (§5.4.1): its last log term is higher than the voter's last
/// term, or equal to it with a last index at least the voter's. A candidate
/// whose last log term is lower is refused, and the voter's vote stays as it
/// was. A candidate that is up to date, in a term not below the voter's, is
/// granted the vote when the voter has not voted for another in that term.
pub proof fn lemma_vote_only_for_up_to_date_log(s: NodeView, from: Seq<char>, m: MessageView)
    requires
        m is RequestVote,
    ensures
        ({
            let t = s.step(from, m);
            let o = s.observe_term(m.term());
            let granted = t.outgoing.last().message matches MessageView::RequestVoteReply { vote_granted, .. }
                && vote_granted;
            let up_to_date = m->RequestVote_last_log_term > s.log.last_term() || (m->RequestVote_last_log_term
                == s.log.last_term() && m->RequestVote_last_log_index >= s.log.last_index());
            &&& t.outgoing.last().message is RequestVoteReply
            &&& t.outgoing.last().to == m->RequestVote_candidate_id
            &&& granted ==> up_to_date
            &&& !up_to_date ==> !granted && t.voted_for == o.voted_for
            &&& (up_to_date && m->RequestVote_term >= s.current_term && (o.voted_for is None || o.voted_for
                == Some(m->RequestVote_candidate_id))) ==> granted && t.voted_for == Some(
                m->RequestVote_candidate_id,
            )
        }),
{
}

/// The command entries of `log` in `(from, to]`, as `newly_committed` lists
/// them: each is the entry at its index, with a non-empty command; their
/// indices rise strictly; and every such entry of the range is listed.
pub proof fn lemma_newly_committed_in_log_order(log: super::log::LogView, from: int, to: int)
    requires
        0 <= from,
        to <= u64::MAX,
    ensures
        forall|k: int|
            #![trigger newly_committed(log, from, to)[k]]
            0 <= k < newly_committed(log, from, to).len() ==> {
                let c = newly_committed(log, from, to)[k];
                &&& c is Command
                &&& from < c->Command_index <= to
                &&& log.entry(c->Command_index as int) matches Some(e)
                &&& e.command.len() > 0
                &&& e.command == c->Command_command
            },
        forall|i: int, j: int|
            #![trigger newly_committed(log, from, to)[i], newly_committed(log, from, to)[j]]
            0 <= i < j < newly_committed(log, from, to).len() ==> newly_committed(log, from, to)[i]->Command_index
                < newly_committed(log, from, to)[j]->Command_index,
        forall|x: int|
            from < x <= to && #[trigger] log.entry(x) is Some && log.entry(x)->0.command.len() > 0 ==> exists|k: int|
                0 <= k < newly_committed(log, from, to).len() && newly_committed(log, from, to)[k]->Command_index
                    == x,
    decreases to - from,
{
    if to > from {
        lemma_newly_committed_in_log_order(log, from, to - 1);
        let before = newly_committed(log, from, to - 1);
        let out = newly_committed(log, from, to);
        assert forall|k: int| 0 <= k < before.len() implies out[k] == before[k] by {}
        assert forall|x: int|
            from < x <= to && #[trigger] log.entry(x) is Some && log.entry(x)->0.command.len() > 0 implies exists|k: int|
                0 <= k < out.len() && out[k]->Command_index == x by {
            if x < to {
                let k = choose|k: int| 0 <= k < before.len() && before[k]->Command_index == x;
                assert(out[k] == before[k]);
            } else {
                assert(out[before.len() as int]->Command_index == x);
            }
        }
    }
}

/// Draining hands the state machine, after what was already queued, the
/// command entries in `(last_applied, commit_index]` of the log, each as the
/// entry at its index, in increasing index order, none left out.
pub proof fn lemma_drain_outputs_in_log_order(s: NodeView)
    ensures
        ({
            let out = s.apply_committed().committed;
            let fresh = out.skip(s.committed.len() as int);
            &&& out.len() >= s.committed.len()
            &&& out.take(s.committed.len() as int) == s.committed
            &&& forall|k: int|
                #![trigger fresh[k]]
                0 <= k < fresh.len() ==> {
                    &&& fresh[k] is Command
                    &&& s.last_applied < fresh[k]->Command_index <= s.commit_index
                    &&& s.log.entry(fresh[k]->Command_index as int) matches Some(e)
                    &&& e.command.len() > 0
                    &&& e.command == fresh[k]->Command_command
                }
            &&& forall|i: int, j: int|
                #![trigger fresh[i], fresh[j]]
                0 <= i < j < fresh.len() ==> fresh[i]->Command_index < fresh[j]->Command_index
            &&& forall|x: int|
                s.last_applied < x <= s.commit_index && #[trigger] s.log.entry(x) is Some
                    && s.log.entry(x)->0.command.len() > 0 ==> exists|k: int| 0 <= k < fresh.len() && fresh[k]->Command_index == x
        }),
{
    let out = s.apply_committed().committed;
    let n = s.committed.len() as int;
    if s.last_applied < s.commit_index {
        let nc = newly_committed(s.log, s.last_applied as int, s.commit_index as int);
        lemma_newly_committed_in_log_order(s.log, s.last_applied as int, s.commit_index as int);
        assert(out == s.committed + nc);
        assert(out.skip(n) =~= nc);
        assert(out.take(n) =~= s.committed);
    } else {
        assert(out == s.committed);
        assert(out.skip(n) =~= Seq::<CommittedView>::empty());
        assert(out.take(n) =~= s.committed);
    }
}

} // verus!
