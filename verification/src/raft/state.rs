//! Role and per-role volatile bookkeeping.

use vstd::prelude::*;

use vstd::hash_map::StringHashMap;
use vstd::hash_set::StringHashSet;

use super::message::NodeId;

verus! {

/// The three Raft roles.
#[derive(Debug, Clone, Copy, PartialEq, Eq, Structural)]
pub enum Role {
    Follower,
    Candidate,
    Leader,
}

/// The views of a sequence of node ids.
pub open spec fn id_views(s: Seq<NodeId>) -> Seq<Seq<char>> {
    Seq::new(s.len(), |i: int| s[i]@)
}

/// A map from node id to a log index.
pub struct PeerIndex {
    map: StringHashMap<u64>,
}

impl PeerIndex {
    /// The map needs nothing beyond its contents.
    pub closed spec fn wf(&self) -> bool {
        true
    }

    /// An empty map.
    pub fn new() -> (res: Self)
        ensures
            res.wf(),
            res@ == Map::<Seq<char>, u64>::empty(),
    {
        PeerIndex { map: StringHashMap::new() }
    }

    /// The value recorded for `key`, if any.
    pub fn get(&self, key: &str) -> (res: Option<u64>)
        requires
            self.wf(),
        ensures
            res == (if self@.contains_key(key@) {
                Some(self@[key@])
            } else {
                None
            }),
    {
        match self.map.get(key) {
            Some(v) => Some(*v),
            None => None,
        }
    }

    /// Record `value` for `key`, replacing any earlier value.
    pub fn insert(&mut self, key: &str, value: u64)
        requires
            old(self).wf(),
        ensures
            final(self).wf(),
            final(self)@ == old(self)@.insert(key@, value),
    {
        self.map.insert(key.to_owned(), value);
    }

    /// Forget every id.
    pub fn clear(&mut self)
        ensures
            final(self).wf(),
            final(self)@ == Map::<Seq<char>, u64>::empty(),
    {
        self.map.clear();
    }
}

impl View for PeerIndex {
    type V = Map<Seq<char>, u64>;

    closed spec fn view(&self) -> Map<Seq<char>, u64> {
        self.map@
    }
}

/// The map sending every id of `peers` to `value`.
pub open spec fn uniform_map(peers: Seq<Seq<char>>, value: u64) -> Map<Seq<char>, u64> {
    Map::new(|k: Seq<char>| peers.contains(k), |k: Seq<char>| value)
}

/// State a leader keeps for each follower (Raft §5.3, Figure 2).
pub struct LeaderProgress {
    /// Next log index to send to each peer.
    pub next_index: PeerIndex,
    /// Highest log index known to be replicated on each peer.
    pub match_index: PeerIndex,
}

impl LeaderProgress {
    /// Both maps are well formed.
    pub open spec fn wf(&self) -> bool {
        self.next_index.wf() && self.match_index.wf()
    }

    /// Empty progress.
    pub fn new() -> (res: Self)
        ensures
            res.wf(),
            res.next_index@ == Map::<Seq<char>, u64>::empty(),
            res.match_index@ == Map::<Seq<char>, u64>::empty(),
    {
        LeaderProgress { next_index: PeerIndex::new(), match_index: PeerIndex::new() }
    }

    /// Initialize progress when first becoming leader: `next_index` optimistic
    /// (leader's last index + 1), `match_index` pessimistic (0).
    pub fn reset(&mut self, peers: &[NodeId], last_log_index: u64)
        requires
            old(self).wf(),
            last_log_index < u64::MAX,
        ensures
            final(self).wf(),
            final(self).next_index@ == uniform_map(id_views(peers@), (last_log_index + 1) as u64),
            final(self).match_index@ == uniform_map(id_views(peers@), 0),
    {
        self.next_index.clear();
        self.match_index.clear();
        let mut i: usize = 0;
        while i < peers.len()
            invariant
                i <= peers@.len(),
                last_log_index < u64::MAX,
                self.wf(),
                self.next_index@ == uniform_map(id_views(peers@.subrange(0, i as int)), (last_log_index + 1) as u64),
                self.match_index@ == uniform_map(id_views(peers@.subrange(0, i as int)), 0),
            decreases peers.len() - i,
        {
            self.next_index.insert(peers[i].as_str(), last_log_index + 1);
            self.match_index.insert(peers[i].as_str(), 0);
            proof {
                let before = id_views(peers@.subrange(0, i as int));
                let after = id_views(peers@.subrange(0, i + 1));
                assert(after =~= before.push(peers@[i as int]@));
                assert forall|k: Seq<char>| after.contains(k) <==> (before.contains(k) || k == peers@[i as int]@) by {
                    if after.contains(k) {
                        let j = choose|j: int| 0 <= j < after.len() && after[j] == k;
                        if j < before.len() {
                            assert(before[j] == k);
                        }
                    }
                    if before.contains(k) {
                        let j = choose|j: int| 0 <= j < before.len() && before[j] == k;
                        assert(after[j] == k);
                    }
                    if k == peers@[i as int]@ {
                        assert(after[i as int] == k);
                    }
                }
                assert(self.next_index@ =~= uniform_map(after, (last_log_index + 1) as u64));
                assert(self.match_index@ =~= uniform_map(after, 0));
            }
            i = i + 1;
        }
        assert(peers@.subrange(0, peers@.len() as int) =~= peers@);
    }

    /// The next index to send to `peer` (1 for an unknown peer).
    pub fn next_index(&self, peer: &str) -> (res: u64)
        requires
            self.wf(),
        ensures
            res == (if self.next_index@.contains_key(peer@) {
                self.next_index@[peer@]
            } else {
                1
            }),
    {
        match self.next_index.get(peer) {
            Some(v) => v,
            None => 1,
        }
    }

    pub fn set_next_index(&mut self, peer: &str, index: u64)
        requires
            old(self).wf(),
        ensures
            final(self).wf(),
            final(self).next_index@ == old(self).next_index@.insert(peer@, index),
            final(self).match_index@ == old(self).match_index@,
    {
        self.next_index.insert(peer, index);
    }

    pub fn set_match_index(&mut self, peer: &str, index: u64)
        requires
            old(self).wf(),
        ensures
            final(self).wf(),
            final(self).match_index@ == old(self).match_index@.insert(peer@, index),
            final(self).next_index@ == old(self).next_index@,
    {
        self.match_index.insert(peer, index);
    }
}

/// Tally of votes received during a candidacy.
pub struct VoteTally {
    granted: StringHashSet,
}

impl View for VoteTally {
    type V = Set<Seq<char>>;

    closed spec fn view(&self) -> Set<Seq<char>> {
        self.granted@
    }
}

impl VoteTally {
    /// The voters recorded are finitely many.
    pub closed spec fn wf(&self) -> bool {
        self@.finite()
    }

    /// An empty tally.
    pub fn new() -> (res: Self)
        ensures
            res.wf(),
            res@ == Set::<Seq<char>>::empty(),
    {
        VoteTally { granted: StringHashSet::new() }
    }

    pub fn clear(&mut self)
        ensures
            final(self).wf(),
            final(self)@ == Set::<Seq<char>>::empty(),
    {
        self.granted.clear();
    }

    /// Record a vote; returns the running count of distinct grants.
    pub fn record(&mut self, voter: NodeId) -> (res: usize)
        requires
            old(self).wf(),
        ensures
            final(self).wf(),
            final(self)@ == old(self)@.insert(voter@),
            res == final(self)@.len(),
            res == old(self)@.len() + if old(self)@.contains(voter@) {
                0int
            } else {
                1int
            },
    {
        self.granted.insert(voter);
        self.granted.len()
    }

    pub fn count(&self) -> (res: usize)
        requires
            self.wf(),
        ensures
            res == self@.len(),
    {
        self.granted.len()
    }
}

} // verus!
