//! Bridging committed Raft log entries and the storage engine.
//!
//! Client writes are encoded into a [`WriteCommand`], stored verbatim in the
//! replicated log, and applied once committed. Applying is a function of the
//! command and the store alone, so every node that applies identical commands
//! in identical order ends with identical contents.

use vstd::prelude::*;

use crate::storage::engine::StorageEngine;

verus! {

/// A state-machine mutation replicated through Raft.
#[derive(Debug, Clone, PartialEq, Eq)]
pub enum WriteCommand {
    SetKey { key: String, value: Vec<u8> },
    Del { keys: Vec<String> },
}

/// The value of a [`WriteCommand`].
pub enum WriteView {
    SetKey(Seq<char>, Seq<u8>),
    Del(Seq<Seq<char>>),
}

impl View for WriteCommand {
    type V = WriteView;

    open spec fn view(&self) -> WriteView {
        match self {
            WriteCommand::SetKey { key, value } => WriteView::SetKey(key@, value@),
            WriteCommand::Del { keys } => WriteView::Del(Seq::new(keys@.len(), |i: int| keys@[i]@)),
        }
    }
}

/// Deleting `keys` one after the other: the store left, and how many of the
/// keys were present when their turn came.
pub open spec fn deleted(m: Map<Seq<char>, Seq<u8>>, keys: Seq<Seq<char>>) -> (Map<Seq<char>, Seq<u8>>, nat)
    decreases keys.len(),
{
    if keys.len() == 0 {
        (m, 0)
    } else {
        let (before, count) = deleted(m, keys.drop_last());
        let k = keys.last();
        (before.remove(k), count + if before.contains_key(k) {
            1nat
        } else {
            0nat
        })
    }
}

/// The store after a command.
pub open spec fn applied(m: Map<Seq<char>, Seq<u8>>, c: WriteView) -> Map<Seq<char>, Seq<u8>> {
    match c {
        WriteView::SetKey(k, v) => m.insert(k, v),
        WriteView::Del(keys) => deleted(m, keys).0,
    }
}

/// The integer reply of a command: 1 for a set, the number of keys removed
/// for a delete.
pub open spec fn reply(m: Map<Seq<char>, Seq<u8>>, c: WriteView) -> int {
    match c {
        WriteView::SetKey(_, _) => 1,
        WriteView::Del(keys) => deleted(m, keys).1 as int,
    }
}

/// No more keys are removed than named.
pub proof fn lemma_deleted_bound(m: Map<Seq<char>, Seq<u8>>, keys: Seq<Seq<char>>)
    ensures
        deleted(m, keys).1 <= keys.len(),
    decreases keys.len(),
{
    if keys.len() > 0 {
        lemma_deleted_bound(m, keys.drop_last());
    }
}

/// The store after a list of commands, applied in order.
pub open spec fn applied_all(m: Map<Seq<char>, Seq<u8>>, commands: Seq<WriteView>) -> Map<Seq<char>, Seq<u8>>
    decreases commands.len(),
{
    if commands.len() == 0 {
        m
    } else {
        applied(applied_all(m, commands.drop_last()), commands.last())
    }
}

/// Replicas that start from the same contents and apply the same commands in
/// the same order end with the same contents.
pub proof fn lemma_replicas_agree(
    a: Map<Seq<char>, Seq<u8>>,
    b: Map<Seq<char>, Seq<u8>>,
    commands: Seq<WriteView>,
)
    requires
        a == b,
    ensures
        applied_all(a, commands) == applied_all(b, commands),
{
}

/// Deleting a list of keys leaves none of them, and keeps every other key.
pub proof fn lemma_deleted_removes_exactly(m: Map<Seq<char>, Seq<u8>>, keys: Seq<Seq<char>>, k: Seq<char>)
    ensures
        keys.contains(k) ==> !deleted(m, keys).0.contains_key(k),
        !keys.contains(k) ==> deleted(m, keys).0.contains_key(k) == m.contains_key(k),
        !keys.contains(k) && m.contains_key(k) ==> deleted(m, keys).0[k] == m[k],
    decreases keys.len(),
{
    if keys.len() > 0 {
        lemma_deleted_removes_exactly(m, keys.drop_last(), k);
        if keys.contains(k) && k != keys.last() {
            let i = choose|i: int| 0 <= i < keys.len() && keys[i] == k;
            assert(keys.drop_last()[i] == k);
        }
        if !keys.contains(k) {
            assert(!keys.drop_last().contains(k)) by {
                if keys.drop_last().contains(k) {
                    let i = choose|i: int| 0 <= i < keys.drop_last().len() && keys.drop_last()[i] == k;
                    assert(keys[i] == k);
                }
            }
            assert(keys[keys.len() - 1] != k);
        }
    }
}

impl WriteCommand {
    /// Whether the reply of this command fits an `i64`: a delete names at
    /// most `i64::MAX` keys.
    pub fn reply_fits(&self) -> (res: bool)
        ensures
            res == (self matches WriteCommand::Del { keys } ==> keys@.len() <= i64::MAX),
    {
        match self {
            WriteCommand::SetKey { .. } => true,
            WriteCommand::Del { keys } => keys.len() as u64 <= 9223372036854775807u64,
        }
    }

    /// Apply this command to the state machine, returning the integer reply
    /// (e.g. number of keys deleted) surfaced to the client.
    pub fn apply<E: StorageEngine>(&self, engine: &mut E) -> (res: i64)
        requires
            old(engine).wf(),
            self matches WriteCommand::Del { keys } ==> keys@.len() <= i64::MAX,
        ensures
            final(engine).wf(),
            final(engine).contents() == applied(old(engine).contents(), self@),
            res == reply(old(engine).contents(), self@),
    {
        match self {
            WriteCommand::SetKey { key, value } => {
                engine.set(key.clone(), value.clone());
                assert(reply(old(engine).contents(), self@) == 1);
                1
            },
            WriteCommand::Del { keys } => {
                let ghost names = Seq::new(keys@.len(), |i: int| keys@[i]@);
                let mut count: i64 = 0;
                let mut i: usize = 0;
                while i < keys.len()
                    invariant
                        i <= keys@.len(),
                        keys@.len() <= i64::MAX,
                        names == Seq::new(keys@.len(), |j: int| keys@[j]@),
                        engine.wf(),
                        engine.contents() == deleted(old(engine).contents(), names.take(i as int)).0,
                        count == deleted(old(engine).contents(), names.take(i as int)).1,
                    decreases keys.len() - i,
                {
                    proof {
                        lemma_deleted_bound(old(engine).contents(), names.take(i as int));
                        let t = names.take(i + 1);
                        assert(t.drop_last() =~= names.take(i as int));
                        assert(t.last() == keys@[i as int]@);
                    }
                    if engine.del(keys[i].as_str()) {
                        count = count + 1;
                    }
                    i = i + 1;
                }
                proof {
                    assert(names.take(keys@.len() as int) =~= names);
                }
                count
            },
        }
    }
}

} // verus!
