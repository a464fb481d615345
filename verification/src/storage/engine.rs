//! The storage engine abstraction.

use vstd::prelude::*;

verus! {

/// One key/value pair, used when taking and restoring snapshots.
pub type KeyValue = (String, Vec<u8>);

/// The value of a key/value pair.
pub open spec fn pair_view(kv: KeyValue) -> (Seq<char>, Seq<u8>) {
    (kv.0@, kv.1@)
}

/// The values of a list of key/value pairs.
pub open spec fn pairs_view(s: Seq<KeyValue>) -> Seq<(Seq<char>, Seq<u8>)> {
    Seq::new(s.len(), |i: int| pair_view(s[i]))
}

/// The map that a list of pairs makes when they are inserted in order: a
/// later pair for a key replaces an earlier one.
pub open spec fn pairs_map(s: Seq<(Seq<char>, Seq<u8>)>) -> Map<Seq<char>, Seq<u8>>
    decreases s.len(),
{
    if s.len() == 0 {
        Map::empty()
    } else {
        pairs_map(s.drop_last()).insert(s.last().0, s.last().1)
    }
}

/// The keys of a list of pairs.
pub open spec fn pair_keys(s: Seq<(Seq<char>, Seq<u8>)>) -> Seq<Seq<char>> {
    Seq::new(s.len(), |i: int| s[i].0)
}

/// A list of pairs with no key twice that holds exactly the entries of `m`.
pub open spec fn lists_exactly(s: Seq<(Seq<char>, Seq<u8>)>, m: Map<Seq<char>, Seq<u8>>) -> bool {
    &&& pair_keys(s).no_duplicates()
    &&& pairs_map(s) == m
}

/// Restoring a snapshot gives back exactly the contents it was taken from.
pub proof fn lemma_restore_of_snapshot(snapshot: Seq<(Seq<char>, Seq<u8>)>, contents: Map<Seq<char>, Seq<u8>>)
    requires
        lists_exactly(snapshot, contents),
    ensures
        pairs_map(snapshot) == contents,
{
}

/// A read after a write of the same key gives back the value written, and a
/// write leaves every other key as it was.
pub proof fn lemma_read_your_write(
    contents: Map<Seq<char>, Seq<u8>>,
    key: Seq<char>,
    value: Seq<u8>,
    other: Seq<char>,
)
    ensures
        contents.insert(key, value).contains_key(key),
        contents.insert(key, value)[key] == value,
        other != key ==> (contents.insert(key, value).contains_key(other) == contents.contains_key(other)),
        other != key && contents.contains_key(other) ==> contents.insert(key, value)[other] == contents[other],
{
}

/// A read after a delete of the same key finds nothing.
pub proof fn lemma_read_after_delete(contents: Map<Seq<char>, Seq<u8>>, key: Seq<char>)
    ensures
        !contents.remove(key).contains_key(key),
{
}

/// A key/value backend that the Raft state machine applies committed writes to.
pub trait StorageEngine {
    /// The representation invariant.
    spec fn wf(&self) -> bool;

    /// What the store holds.
    spec fn contents(&self) -> Map<Seq<char>, Seq<u8>>;

    /// Fetch a value, or `None` if the key is absent.
    fn get(&self, key: &str) -> (res: Option<Vec<u8>>)
        requires
            self.wf(),
        ensures
            match res {
                Some(v) => self.contents().contains_key(key@) && v@ == self.contents()[key@],
                None => !self.contents().contains_key(key@),
            },
    ;

    /// Insert or overwrite a key.
    fn set(&mut self, key: String, value: Vec<u8>)
        requires
            old(self).wf(),
        ensures
            final(self).wf(),
            final(self).contents() == old(self).contents().insert(key@, value@),
    ;

    /// Remove a key, returning whether it existed.
    fn del(&mut self, key: &str) -> (res: bool)
        requires
            old(self).wf(),
        ensures
            final(self).wf(),
            res == old(self).contents().contains_key(key@),
            final(self).contents() == old(self).contents().remove(key@),
    ;

    /// Number of stored keys.
    fn len(&self) -> (res: usize)
        requires
            self.wf(),
        ensures
            self.contents().dom().finite(),
            res == self.contents().len(),
    ;

    /// Whether the store holds no keys.
    fn is_empty(&self) -> (res: bool)
        requires
            self.wf(),
        ensures
            res == (self.contents().len() == 0),
    {
        self.len() == 0
    }

    /// Materialize the full contents for snapshotting.
    fn snapshot(&self) -> (res: Vec<KeyValue>)
        requires
            self.wf(),
        ensures
            lists_exactly(pairs_view(res@), self.contents()),
    ;

    /// Replace the entire contents from a snapshot.
    fn restore(&mut self, entries: Vec<KeyValue>)
        requires
            old(self).wf(),
        ensures
            final(self).wf(),
            final(self).contents() == pairs_map(pairs_view(entries@)),
    ;
}

} // verus!
