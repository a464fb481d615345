//! In-memory storage engine.
//!
//! This is the default backend: fast, dependency-free, and lost on restart
//! (durability comes from the replicated Raft log + snapshots, not the map).
//! Keys and values are kept in two parallel lists with no key twice.

use vstd::prelude::*;

use super::engine::{
    pair_keys, pair_view, pairs_map, pairs_view, KeyValue, StorageEngine, lists_exactly,
};
use crate::raft::state::id_views;

verus! {

/// An in-memory key/value map.
#[derive(Debug)]
pub struct MemoryEngine {
    keys: Vec<String>,
    values: Vec<Vec<u8>>,
}

/// A list of pairs with no key twice holds each of its pairs, and nothing
/// else.
pub proof fn lemma_pairs_map_distinct(s: Seq<(Seq<char>, Seq<u8>)>)
    requires
        pair_keys(s).no_duplicates(),
    ensures
        forall|i: int| 0 <= i < s.len() ==> #[trigger] pairs_map(s).contains_key(s[i].0) && pairs_map(s)[s[i].0]
            == s[i].1,
        forall|k: Seq<char>| #[trigger] pairs_map(s).contains_key(k) ==> pair_keys(s).contains(k),
    decreases s.len(),
{
    if s.len() > 0 {
        let d = s.drop_last();
        assert(pair_keys(d) =~= pair_keys(s).drop_last());
        assert(pair_keys(d).no_duplicates()) by {
            assert forall|i: int, j: int| 0 <= i < j < pair_keys(d).len() implies pair_keys(d)[i] != pair_keys(
                d,
            )[j] by {
                assert(pair_keys(d)[i] == pair_keys(s)[i]);
                assert(pair_keys(d)[j] == pair_keys(s)[j]);
            }
        }
        lemma_pairs_map_distinct(d);
        assert forall|i: int| 0 <= i < s.len() implies #[trigger] pairs_map(s).contains_key(s[i].0) && pairs_map(
            s,
        )[s[i].0] == s[i].1 by {
            if i < s.len() - 1 {
                assert(d[i] == s[i]);
                assert(pairs_map(d).contains_key(d[i].0));
                assert(pair_keys(s)[i] != pair_keys(s)[s.len() - 1]);
            }
        }
        assert forall|k: Seq<char>| #[trigger] pairs_map(s).contains_key(k) implies pair_keys(s).contains(k) by {
            if k != s.last().0 {
                assert(pairs_map(d).contains_key(k));
                let j = choose|j: int| 0 <= j < pair_keys(d).len() && pair_keys(d)[j] == k;
                assert(pair_keys(s)[j] == k);
            } else {
                assert(pair_keys(s)[s.len() - 1] == k);
            }
        }
    }
}

impl MemoryEngine {
    spec fn key_views(&self) -> Seq<Seq<char>> {
        id_views(self.keys@)
    }

    /// The representation invariant: as many values as keys, and no key
    /// twice.
    pub closed spec fn well_formed(&self) -> bool {
        &&& self.keys@.len() == self.values@.len()
        &&& self.key_views().no_duplicates()
    }

    spec fn slot(&self, k: Seq<char>) -> int {
        choose|i: int| 0 <= i < self.keys@.len() && self.key_views()[i] == k
    }

    proof fn lemma_slot(&self, i: int)
        requires
            self.well_formed(),
            0 <= i < self.keys@.len(),
        ensures
            self.slot(self.key_views()[i]) == i,
    {
        let k = self.key_views()[i];
        let j = self.slot(k);
        assert(0 <= j < self.keys@.len() && self.key_views()[j] == k);
    }

    /// The pairs held, in order.
    spec fn pair_list(&self) -> Seq<(Seq<char>, Seq<u8>)> {
        Seq::new(self.keys@.len(), |i: int| (self.keys@[i]@, self.values@[i]@))
    }

    /// The map is the one its pairs make.
    proof fn lemma_pair_list(&self)
        requires
            self.well_formed(),
        ensures
            lists_exactly(self.pair_list(), self@),
    {
        let s = self.pair_list();
        assert(pair_keys(s) =~= self.key_views());
        lemma_pairs_map_distinct(s);
        assert forall|k: Seq<char>| #[trigger] pairs_map(s).contains_key(k) == self@.contains_key(k) by {
            if self@.contains_key(k) {
                let j = self.slot(k);
                assert(s[j].0 == k);
            }
        }
        assert forall|k: Seq<char>| #[trigger] self@.contains_key(k) implies pairs_map(s)[k] == self@[k] by {
            let j = self.slot(k);
            assert(s[j].0 == k);
            assert(pairs_map(s).contains_key(s[j].0));
        }
        assert(pairs_map(s) =~= self@);
    }

    /// Look up the position of a key.
    fn find(&self, key: &String) -> (res: Option<usize>)
        requires
            self.well_formed(),
        ensures
            match res {
                Some(i) => i < self.keys@.len() && self.key_views()[i as int] == key@,
                None => !self.key_views().contains(key@),
            },
    {
        let mut i: usize = 0;
        while i < self.keys.len()
            invariant
                i <= self.keys@.len(),
                forall|j: int| 0 <= j < i ==> self.key_views()[j] != key@,
            decreases self.keys.len() - i,
        {
            if self.keys[i] == *key {
                return Some(i);
            }
            i = i + 1;
        }
        None
    }

    /// An empty store.
    pub fn new() -> (res: Self)
        ensures
            res.well_formed(),
            res@ == Map::<Seq<char>, Seq<u8>>::empty(),
    {
        let res = MemoryEngine { keys: Vec::new(), values: Vec::new() };
        assert(res.key_views() =~= Seq::<Seq<char>>::empty());
        assert(res@ =~= Map::<Seq<char>, Seq<u8>>::empty());
        res
    }

    /// Forget every key.
    fn clear(&mut self)
        ensures
            final(self).well_formed(),
            final(self)@ == Map::<Seq<char>, Seq<u8>>::empty(),
    {
        self.keys.clear();
        self.values.clear();
        assert(self.key_views() =~= Seq::<Seq<char>>::empty());
        assert(self@ =~= Map::<Seq<char>, Seq<u8>>::empty());
    }

    /// Record `value` under `key`.
    fn put(&mut self, key: String, value: Vec<u8>)
        requires
            old(self).well_formed(),
        ensures
            final(self).well_formed(),
            final(self)@ == old(self)@.insert(key@, value@),
    {
        match self.find(&key) {
            Some(i) => {
                self.values.set(i, value);
                proof {
                    old(self).lemma_slot(i as int);
                    assert(self.key_views() == old(self).key_views());
                    assert forall|k: Seq<char>| #[trigger] self@.contains_key(k) && k != key@ implies self@[k]
                        == old(self)@[k] by {
                        let j = old(self).slot(k);
                        old(self).lemma_slot(j);
                        assert(j != i);
                    }
                    assert(self@ =~= old(self)@.insert(key@, value@));
                }
            },
            None => {
                let ghost kv = key@;
                self.keys.push(key);
                self.values.push(value);
                proof {
                    let n = old(self).keys@.len() as int;
                    assert(self.key_views() =~= old(self).key_views().push(kv));
                    assert(self.key_views()[n] == kv);
                    self.lemma_slot(n);
                    assert forall|k: Seq<char>| #[trigger] old(self)@.contains_key(k) implies self@[k]
                        == old(self)@[k] by {
                        let j = old(self).slot(k);
                        old(self).lemma_slot(j);
                        assert(self.key_views()[j] == k);
                        self.lemma_slot(j);
                    }
                    assert(self.key_views().contains(kv));
                    assert forall|k: Seq<char>| #[trigger] old(self)@.contains_key(k) implies self@.contains_key(k) by {
                        let j = choose|j: int| 0 <= j < old(self).keys@.len() && old(self).key_views()[j] == k;
                        assert(self.key_views()[j] == k);
                    }
                    assert forall|k: Seq<char>| #[trigger] self@.contains_key(k) implies k == kv
                        || old(self)@.contains_key(k) by {
                        let j = choose|j: int| 0 <= j < self.keys@.len() && self.key_views()[j] == k;
                        if j < n {
                            assert(old(self).key_views()[j] == k);
                        }
                    }
                    assert(self@ =~= old(self)@.insert(kv, value@));
                }
            },
        }
    }
}

impl View for MemoryEngine {
    type V = Map<Seq<char>, Seq<u8>>;

    closed spec fn view(&self) -> Map<Seq<char>, Seq<u8>> {
        Map::new(|k: Seq<char>| self.key_views().contains(k), |k: Seq<char>| self.values@[self.slot(k)]@)
    }
}

impl Default for MemoryEngine {
    fn default() -> (res: Self)
        ensures
            res.well_formed(),
            res@ == Map::<Seq<char>, Seq<u8>>::empty(),
    {
        MemoryEngine::new()
    }
}

impl StorageEngine for MemoryEngine {
    open spec fn wf(&self) -> bool {
        self.well_formed()
    }

    open spec fn contents(&self) -> Map<Seq<char>, Seq<u8>> {
        self@
    }

    fn get(&self, key: &str) -> (res: Option<Vec<u8>>) {
        let owned = String::from_str(key);
        match self.find(&owned) {
            Some(i) => {
                proof {
                    self.lemma_slot(i as int);
                }
                Some(self.values[i].clone())
            },
            None => None,
        }
    }

    fn set(&mut self, key: String, value: Vec<u8>) {
        self.put(key, value);
    }

    fn del(&mut self, key: &str) -> (res: bool) {
        let owned = String::from_str(key);
        match self.find(&owned) {
            Some(i) => {
                let ghost kv = key@;
                self.keys.remove(i);
                self.values.remove(i);
                proof {
                    old(self).lemma_slot(i as int);
                    let ok = old(self).key_views();
                    assert(self.key_views() =~= ok.remove(i as int));
                    assert(self.key_views().no_duplicates()) by {
                        assert forall|a: int, b: int| 0 <= a < b < self.key_views().len() implies self.key_views()[a]
                            != self.key_views()[b] by {
                            let a0 = if a < i { a } else { a + 1 };
                            let b0 = if b < i { b } else { b + 1 };
                            assert(self.key_views()[a] == ok[a0]);
                            assert(self.key_views()[b] == ok[b0]);
                        }
                    }
                    assert forall|k: Seq<char>| #[trigger] self@.contains_key(k) == old(self)@.remove(kv).contains_key(
                        k,
                    ) by {
                        if self@.contains_key(k) {
                            let j = choose|j: int| 0 <= j < self.keys@.len() && self.key_views()[j] == k;
                            let j0 = if j < i { j } else { j + 1 };
                            assert(ok[j0] == k);
                            assert(j0 != i);
                        }
                        if old(self)@.remove(kv).contains_key(k) {
                            let j0 = old(self).slot(k);
                            assert(j0 != i);
                            let j = if j0 < i { j0 } else { j0 - 1 };
                            assert(self.key_views()[j] == k);
                        }
                    }
                    assert forall|k: Seq<char>| #[trigger] self@.contains_key(k) implies self@[k] == old(self)@[k] by {
                        let j = self.slot(k);
                        let j0 = if j < i { j } else { j + 1 };
                        assert(ok[j0] == k);
                        old(self).lemma_slot(j0);
                    }
                    assert(self@ =~= old(self)@.remove(kv));
                }
                true
            },
            None => {
                assert(!self@.contains_key(key@));
                assert(self@.remove(key@) =~= self@);
                false
            },
        }
    }

    fn len(&self) -> (res: usize) {
        proof {
            self.key_views().unique_seq_to_set();
            vstd::seq_lib::seq_to_set_is_finite(self.key_views());
            assert(self@.dom() =~= self.key_views().to_set());
        }
        self.keys.len()
    }

    fn snapshot(&self) -> (res: Vec<KeyValue>) {
        let mut out: Vec<KeyValue> = Vec::new();
        let mut i: usize = 0;
        while i < self.keys.len()
            invariant
                self.well_formed(),
                i <= self.keys@.len(),
                out@.len() == i,
                forall|j: int| 0 <= j < i ==> #[trigger] pair_view(out@[j]) == self.pair_list()[j],
            decreases self.keys.len() - i,
        {
            out.push((self.keys[i].clone(), self.values[i].clone()));
            i = i + 1;
        }
        proof {
            assert(pairs_view(out@) =~= self.pair_list());
            self.lemma_pair_list();
        }
        out
    }

    fn restore(&mut self, entries: Vec<KeyValue>) {
        self.clear();
        let ghost pv = pairs_view(entries@);
        let mut i: usize = 0;
        while i < entries.len()
            invariant
                i <= entries@.len(),
                pv == pairs_view(entries@),
                self.well_formed(),
                self@ == pairs_map(pv.take(i as int)),
            decreases entries.len() - i,
        {
            let key = entries[i].0.clone();
            let value = entries[i].1.clone();
            self.put(key, value);
            proof {
                let t = pv.take(i + 1);
                assert(t.drop_last() =~= pv.take(i as int));
                assert(t.last() == pv[i as int]);
            }
            i = i + 1;
        }
        proof {
            assert(pv.take(entries@.len() as int) =~= pv);
        }
    }
}

} // verus!
