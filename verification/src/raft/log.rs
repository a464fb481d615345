//! The replicated log.
//!
//! Log indices are 1-based (index 0 is the empty "before the beginning"
//! sentinel, matching the Raft paper). After a snapshot the low end of the log
//! is discarded; the snapshot index and term remember the last entry that the
//! snapshot covers so index math still works.

use vstd::prelude::*;

verus! {

/// A single command replicated across the cluster.
#[derive(Debug)]
pub struct LogEntry {
    /// Leader term in which the entry was created.
    pub term: u64,
    /// Opaque, already-serialized state-machine command.
    pub command: Vec<u8>,
}

/// The mathematical value of a [`LogEntry`].
pub struct EntryView {
    pub term: u64,
    pub command: Seq<u8>,
}

impl View for LogEntry {
    type V = EntryView;

    open spec fn view(&self) -> EntryView {
        EntryView { term: self.term, command: self.command@ }
    }
}

/// Views of a sequence of entries.
pub open spec fn entry_views(s: Seq<LogEntry>) -> Seq<EntryView> {
    Seq::new(s.len(), |i: int| s[i]@)
}

/// Views distribute over concatenation.
pub proof fn lemma_entry_views_add(a: Seq<LogEntry>, b: Seq<LogEntry>)
    ensures
        entry_views(a + b) == entry_views(a) + entry_views(b),
{
    assert(entry_views(a + b) =~= entry_views(a) + entry_views(b));
}

/// Views commute with taking a subrange.
pub proof fn lemma_entry_views_subrange(a: Seq<LogEntry>, lo: int, hi: int)
    requires
        0 <= lo <= hi <= a.len(),
    ensures
        entry_views(a.subrange(lo, hi)) == entry_views(a).subrange(lo, hi),
{
    assert(entry_views(a.subrange(lo, hi)) =~= entry_views(a).subrange(lo, hi));
}

impl Clone for LogEntry {
    fn clone(&self) -> (res: Self)
        ensures
            res@ == self@,
    {
        let command = self.command.clone();
        assert(command@ =~= self.command@);
        LogEntry { term: self.term, command }
    }
}

/// Clone a vector of entries, keeping every entry's value.
pub fn clone_entries(v: &Vec<LogEntry>) -> (res: Vec<LogEntry>)
    ensures
        entry_views(res@) == entry_views(v@),
{
    let mut res: Vec<LogEntry> = Vec::new();
    let mut i: usize = 0;
    while i < v.len()
        invariant
            i <= v.len(),
            res@.len() == i,
            forall|j: int| 0 <= j < i ==> res@[j]@ == v@[j]@,
        decreases v.len() - i,
    {
        res.push(v[i].clone());
        i = i + 1;
    }
    assert(entry_views(res@) =~= entry_views(v@));
    res
}

/// The mathematical value of a [`RaftLog`]: the entries after the snapshot
/// point, and the snapshot point itself.
pub struct LogView {
    pub entries: Seq<EntryView>,
    pub snapshot_index: u64,
    pub snapshot_term: u64,
}

impl LogView {
    /// Index of the last entry.
    pub open spec fn last_index(self) -> int {
        self.snapshot_index + self.entries.len()
    }

    /// Term of the last entry (the snapshot term when no entry is buffered).
    pub open spec fn last_term(self) -> u64 {
        if self.entries.len() > 0 {
            self.entries.last().term
        } else {
            self.snapshot_term
        }
    }

    /// The first index physically present.
    pub open spec fn first_index(self) -> int {
        self.snapshot_index + 1
    }

    /// The entry at a 1-based log index, if it is buffered.
    pub open spec fn entry(self, index: int) -> Option<EntryView> {
        if self.snapshot_index < index <= self.last_index() {
            Some(self.entries[index - self.snapshot_index - 1])
        } else {
            None
        }
    }

    /// The term at `index`: the snapshot term at the snapshot point, the
    /// entry's term for a buffered entry, and nothing elsewhere.
    pub open spec fn term_at(self, index: int) -> Option<u64> {
        if index == self.snapshot_index {
            Some(self.snapshot_term)
        } else {
            match self.entry(index) {
                Some(e) => Some(e.term),
                None => None,
            }
        }
    }

    /// Whether the entry at `index` has term `term`; index 0 and the
    /// snapshot point always match, whatever the term.
    pub open spec fn matches(self, index: int, term: u64) -> bool {
        if index == 0 || index == self.snapshot_index {
            true
        } else {
            match self.term_at(index) {
                Some(t) => t == term,
                None => false,
            }
        }
    }

    /// The buffered entries with index `>= from`.
    pub open spec fn entries_from(self, from: int) -> Seq<EntryView> {
        if from <= self.snapshot_index {
            self.entries
        } else if from - self.snapshot_index - 1 <= self.entries.len() {
            self.entries.subrange(from - self.snapshot_index - 1, self.entries.len() as int)
        } else {
            Seq::empty()
        }
    }

    /// The log without the entries at index `>= index`.
    pub open spec fn truncated_from(self, index: int) -> LogView {
        if index <= self.snapshot_index {
            LogView { entries: Seq::empty(), ..self }
        } else if index - self.snapshot_index - 1 < self.entries.len() {
            LogView { entries: self.entries.take(index - self.snapshot_index - 1), ..self }
        } else {
            self
        }
    }

    /// The log with `more` appended at the tail.
    pub open spec fn appended(self, more: Seq<EntryView>) -> LogView {
        LogView { entries: self.entries + more, ..self }
    }

    /// Merge `incoming` so that its first entry lands at index `next`: entries
    /// that already agree (same term) are kept, and at the first disagreement
    /// the log is cut there and the rest of `incoming` is appended.
    pub open spec fn merged(self, next: int, incoming: Seq<EntryView>) -> LogView
        decreases incoming.len(),
    {
        if incoming.len() == 0 {
            self
        } else if self.term_at(next) == Some(incoming[0].term) {
            self.merged(next + 1, incoming.drop_first())
        } else {
            self.truncated_from(next).appended(incoming)
        }
    }

    /// The log after a snapshot of `index` with term `term` was installed.
    pub open spec fn with_snapshot(self, index: u64, term: u64) -> LogView {
        LogView { entries: Seq::empty(), snapshot_index: index, snapshot_term: term }
    }

    /// The log compacted up to and including `index`; unchanged when `index`
    /// is not a buffered entry.
    pub open spec fn compacted(self, index: u64) -> LogView {
        if index <= self.snapshot_index || index > self.last_index() {
            self
        } else {
            LogView {
                entries: self.entries.skip(index - self.snapshot_index),
                snapshot_index: index,
                snapshot_term: self.entries[index - self.snapshot_index - 1].term,
            }
        }
    }
}

/// Merging entries that the log already holds (same index, same term)
/// leaves the log unchanged: replaying an AppendEntries is harmless.
pub proof fn lemma_merge_agreeing_is_identity(log: LogView, next: int, incoming: Seq<EntryView>)
    requires
        forall|k: int| 0 <= k < incoming.len() ==> log.term_at(next + k) == Some(#[trigger] incoming[k].term),
    ensures
        log.merged(next, incoming) == log,
    decreases incoming.len(),
{
    if incoming.len() > 0 {
        assert(log.term_at(next + 0) == Some(incoming[0].term));
        let rest = incoming.drop_first();
        assert forall|k: int| 0 <= k < rest.len() implies log.term_at(next + 1 + k) == Some(#[trigger] rest[k].term) by {
            assert(rest[k] == incoming[k + 1]);
            assert(next + 1 + k == next + (k + 1));
        }
        lemma_merge_agreeing_is_identity(log, next + 1, rest);
    }
}

/// After a merge that starts right after a known position (from the snapshot
/// point to the last index), every incoming entry sits at its index with its
/// term, everything before the merge point is untouched, and the snapshot
/// point is kept (Raft's log-matching step, §5.3).
pub proof fn lemma_merge_places_entries(log: LogView, next: int, incoming: Seq<EntryView>)
    requires
        log.snapshot_index < next <= log.last_index() + 1,
    ensures
        forall|k: int| 0 <= k < incoming.len() ==> log.merged(next, incoming).term_at(next + k) == Some(#[trigger] incoming[k].term),
        forall|j: int| j < next ==> log.merged(next, incoming).term_at(j) == #[trigger] log.term_at(j),
        log.merged(next, incoming).snapshot_index == log.snapshot_index,
        log.merged(next, incoming).snapshot_term == log.snapshot_term,
        log.merged(next, incoming).last_index() >= next - 1 + incoming.len(),
    decreases incoming.len(),
{
    if incoming.len() == 0 {
    } else if log.term_at(next) == Some(incoming[0].term) {
        let rest = incoming.drop_first();
        lemma_merge_places_entries(log, next + 1, rest);
        let m = log.merged(next, incoming);
        assert forall|k: int| 0 <= k < incoming.len() implies m.term_at(next + k) == Some(#[trigger] incoming[k].term) by {
            if k > 0 {
                assert(rest[k - 1] == incoming[k]);
                assert(next + 1 + (k - 1) == next + k);
            } else {
                assert(m.term_at(next) == log.term_at(next));
            }
        }
    } else {
        let m = log.merged(next, incoming);
        let t = log.truncated_from(next);
        assert(t.entries.len() == next - log.snapshot_index - 1);
        assert forall|k: int| 0 <= k < incoming.len() implies m.term_at(next + k) == Some(#[trigger] incoming[k].term) by {
            assert(m.entries[next + k - m.snapshot_index - 1] == incoming[k]);
        }
        assert forall|j: int| j < next implies m.term_at(j) == #[trigger] log.term_at(j) by {
            if log.snapshot_index < j {
                assert(m.entries[j - m.snapshot_index - 1] == log.entries[j - log.snapshot_index - 1]);
            }
        }
    }
}

/// Splicing the same entries at the same point a second time changes
/// nothing: the log after two splices is the log after one, so the second
/// reports the same last index. The point lies between the snapshot point and
/// the last index, as the splice of an AppendEntries that matched requires.
pub proof fn lemma_splice_idempotent(log: LogView, prev_index: int, incoming: Seq<EntryView>)
    requires
        log.snapshot_index <= prev_index <= log.last_index(),
    ensures
        log.merged(prev_index + 1, incoming).merged(prev_index + 1, incoming) == log.merged(prev_index + 1, incoming),
{
    lemma_merge_places_entries(log, prev_index + 1, incoming);
    let m = log.merged(prev_index + 1, incoming);
    assert forall|k: int| 0 <= k < incoming.len() implies m.term_at(prev_index + 1 + k) == Some(
        #[trigger] incoming[k].term,
    ) by {}
    lemma_merge_agreeing_is_identity(m, prev_index + 1, incoming);
}

/// A merge adds at most the incoming entries past the later of the last
/// index and the merge point.
pub proof fn lemma_merge_bound(log: LogView, next: int, incoming: Seq<EntryView>)
    ensures
        log.merged(next, incoming).last_index() <= (if log.last_index() >= next - 1 {
            log.last_index()
        } else {
            next - 1
        }) + incoming.len(),
    decreases incoming.len(),
{
    if incoming.len() > 0 && log.term_at(next) == Some(incoming[0].term) {
        lemma_merge_bound(log, next + 1, incoming.drop_first());
    }
}

/// A merge starting no later than just past the last index leaves the log
/// reaching at least to the last incoming entry.
pub proof fn lemma_merge_lower_bound(log: LogView, next: int, incoming: Seq<EntryView>)
    requires
        next <= log.last_index() + 1,
    ensures
        log.merged(next, incoming).last_index() >= next - 1 + incoming.len(),
    decreases incoming.len(),
{
    if incoming.len() > 0 && log.term_at(next) == Some(incoming[0].term) {
        lemma_merge_lower_bound(log, next + 1, incoming.drop_first());
    }
}

/// Compacting up to a buffered index keeps the last index and the term of
/// every index from the new snapshot point on, and moves the first index
/// just past it.
pub proof fn lemma_compaction_preserves_index_math(log: LogView, index: u64)
    requires
        log.snapshot_index < index <= log.last_index(),
    ensures
        log.compacted(index).last_index() == log.last_index(),
        log.compacted(index).first_index() == index + 1,
        forall|j: int| j >= index ==> log.compacted(index).term_at(j) == #[trigger] log.term_at(j),
{
    let c = log.compacted(index);
    assert forall|j: int| j >= index implies c.term_at(j) == #[trigger] log.term_at(j) by {
        if j > index && j <= c.last_index() {
            assert(c.entries[j - c.snapshot_index - 1] == log.entries[j - log.snapshot_index - 1]);
        }
    }
}

/// An in-memory Raft log with snapshot bookkeeping.
#[derive(Debug)]
pub struct RaftLog {
    /// Entries after the snapshot point. `entries[0]` has index
    /// `snapshot_index + 1`.
    entries: Vec<LogEntry>,
    /// Index of the last entry included in the most recent snapshot.
    snapshot_index: u64,
    /// Term of the last entry included in the most recent snapshot.
    snapshot_term: u64,
}

impl View for RaftLog {
    type V = LogView;

    closed spec fn view(&self) -> LogView {
        LogView {
            entries: entry_views(self.entries@),
            snapshot_index: self.snapshot_index,
            snapshot_term: self.snapshot_term,
        }
    }
}

impl RaftLog {
    /// The log's invariant: every index fits in a `u64`.
    pub open spec fn wf(&self) -> bool {
        self@.last_index() <= u64::MAX
    }

    pub fn new() -> (log: Self)
        ensures
            log.wf(),
            log@ == (LogView { entries: Seq::empty(), snapshot_index: 0, snapshot_term: 0 }),
    {
        let log = RaftLog { entries: Vec::new(), snapshot_index: 0, snapshot_term: 0 };
        assert(log@.entries =~= Seq::<EntryView>::empty());
        log
    }

    /// Index of the last entry (0 if the log is empty and un-snapshotted).
    pub fn last_index(&self) -> (res: u64)
        requires
            self.wf(),
        ensures
            res == self@.last_index(),
    {
        self.snapshot_index + self.entries.len() as u64
    }

    /// Term of the last entry.
    pub fn last_term(&self) -> (res: u64)
        ensures
            res == self@.last_term(),
    {
        if self.entries.len() > 0 {
            self.entries[self.entries.len() - 1].term
        } else {
            self.snapshot_term
        }
    }

    /// The first index physically present in the entries (i.e. not compacted).
    pub fn first_index(&self) -> (res: u64)
        requires
            self@.snapshot_index < u64::MAX,
        ensures
            res == self@.first_index(),
    {
        self.snapshot_index + 1
    }

    pub fn snapshot_index(&self) -> (res: u64)
        ensures
            res == self@.snapshot_index,
    {
        self.snapshot_index
    }

    /// Term of the entry at `index`, if known (present or the snapshot point).
    pub fn term_at(&self, index: u64) -> (res: Option<u64>)
        requires
            self.wf(),
        ensures
            res == self@.term_at(index as int),
    {
        if index == self.snapshot_index {
            return Some(self.snapshot_term);
        }
        match self.get(index) {
            Some(e) => Some(e.term),
            None => None,
        }
    }

    /// Borrow the entry at a 1-based log `index`, if present.
    pub fn get(&self, index: u64) -> (res: Option<&LogEntry>)
        requires
            self.wf(),
        ensures
            match res {
                Some(e) => self@.entry(index as int) == Some(e@),
                None => self@.entry(index as int).is_none(),
            },
    {
        let len = self.entries.len();
        if index <= self.snapshot_index || index > self.last_index() {
            return None;
        }
        let offset = (index - self.snapshot_index - 1) as usize;
        Some(&self.entries[offset])
    }

    /// Append a batch of entries to the tail, returning the new last index.
    pub fn append(&mut self, new_entries: Vec<LogEntry>) -> (res: u64)
        requires
            old(self).wf(),
            old(self)@.last_index() + new_entries@.len() <= u64::MAX,
        ensures
            final(self).wf(),
            final(self)@ == old(self)@.appended(entry_views(new_entries@)),
            res == final(self)@.last_index(),
    {
        let mut new_entries = new_entries;
        let ghost added = entry_views(new_entries@);
        self.entries.append(&mut new_entries);
        assert(self@.entries =~= old(self)@.entries + added);
        self.last_index()
    }

    /// All entries with index `>= from` (used to build AppendEntries).
    pub fn entries_from(&self, from: u64) -> (res: Vec<LogEntry>)
        requires
            self.wf(),
        ensures
            entry_views(res@) == self@.entries_from(from as int),
    {
        if from <= self.snapshot_index {
            return clone_entries(&self.entries);
        }
        let offset = from - self.snapshot_index - 1;
        let len = self.entries.len();
        if offset > len as u64 {
            let res: Vec<LogEntry> = Vec::new();
            assert(entry_views(res@) =~= Seq::<EntryView>::empty());
            return res;
        }
        let mut all = clone_entries(&self.entries);
        let ghost all0 = all@;
        let res = all.split_off(offset as usize);
        proof {
            lemma_entry_views_subrange(all0, offset as int, all0.len() as int);
        }
        res
    }

    /// Whether the log contains an entry at `index` whose term matches `term`.
    /// Index 0 (and the snapshot point) always "matches" by convention.
    pub fn matches(&self, index: u64, term: u64) -> (res: bool)
        requires
            self.wf(),
        ensures
            res == self@.matches(index as int, term),
    {
        if index == 0 || index == self.snapshot_index {
            return true;
        }
        match self.term_at(index) {
            Some(t) => t == term,
            None => false,
        }
    }

    /// Merge leader-supplied entries starting at `prev_index + 1`, truncating
    /// any conflicting suffix (Raft §5.3). Returns the resulting last index.
    pub fn splice(&mut self, prev_index: u64, incoming: Vec<LogEntry>) -> (res: u64)
        requires
            old(self).wf(),
            prev_index + incoming@.len() < u64::MAX,
            old(self)@.last_index() + incoming@.len() <= u64::MAX,
        ensures
            final(self).wf(),
            final(self)@ == old(self)@.merged(prev_index + 1, entry_views(incoming@)),
            res == final(self)@.last_index(),
    {
        let mut pending = incoming;
        let mut next: u64 = prev_index + 1;
        let mut i: usize = 0;
        let ghost all = entry_views(pending@);
        assert(all.skip(0) =~= all);
        while i < pending.len()
            invariant
                self.wf(),
                pending@.len() == all.len(),
                all == entry_views(pending@),
                all == entry_views(incoming@),
                i <= pending@.len(),
                next == prev_index + 1 + i,
                prev_index + pending@.len() < u64::MAX,
                self@ == old(self)@,
                old(self)@.last_index() + pending@.len() <= u64::MAX,
                old(self)@.merged(prev_index + 1, all) == self@.merged(
                    next as int,
                    all.skip(i as int),
                ),
            decreases pending.len() - i,
        {
            let t = self.term_at(next);
            let ghost rest = all.skip(i as int);
            assert(rest[0] == all[i as int]);
            if t.is_some() && t.unwrap() == pending[i].term {
                assert(rest.drop_first() =~= all.skip(i + 1));
                next = next + 1;
                i = i + 1;
            } else {
                // Conflict (or new territory): drop everything from `next`
                // and append the remainder of the incoming entries.
                let ghost before = self@;
                assert(before.term_at(next as int) != Some(rest[0].term));
                assert(before.merged(next as int, rest) == before.truncated_from(next as int).appended(rest));
                self.truncate_from(next);
                let ghost cut = self.entries@;
                let ghost inc0 = pending@;
                let mut tail = pending.split_off(i);
                proof {
                    lemma_entry_views_subrange(inc0, i as int, inc0.len() as int);
                    assert(entry_views(tail@) =~= rest);
                }
                let ghost tail0 = tail@;
                self.entries.append(&mut tail);
                proof {
                    lemma_entry_views_add(cut, tail0);
                }
                assert(self@ =~= before.truncated_from(next as int).appended(rest));
                return self.last_index();
            }
        }
        assert(all.skip(i as int) =~= Seq::<EntryView>::empty());
        self.last_index()
    }

    /// Discard all entries with index `>= index`.
    fn truncate_from(&mut self, index: u64)
        requires
            old(self).wf(),
        ensures
            final(self).wf(),
            final(self)@ == old(self)@.truncated_from(index as int),
    {
        if index <= self.snapshot_index {
            self.entries.clear();
            assert(self@.entries =~= Seq::<EntryView>::empty());
            return;
        }
        let offset = index - self.snapshot_index - 1;
        let len = self.entries.len();
        if offset < len as u64 {
            self.entries.truncate(offset as usize);
            proof {
                lemma_entry_views_subrange(old(self).entries@, 0, offset as int);
            }
            assert(self@.entries =~= old(self)@.entries.take(offset as int));
        }
    }

    /// Install a snapshot received from the leader: discard all buffered
    /// entries and reset the snapshot point to the given position.
    pub fn install_snapshot(&mut self, last_included_index: u64, last_included_term: u64)
        ensures
            final(self).wf(),
            final(self)@ == old(self)@.with_snapshot(last_included_index, last_included_term),
    {
        self.entries.clear();
        self.snapshot_index = last_included_index;
        self.snapshot_term = last_included_term;
        assert(self@.entries =~= Seq::<EntryView>::empty());
    }

    /// Compact the log up to and including `index`, recording the snapshot
    /// point. Entries at or below `index` are dropped.
    pub fn compact(&mut self, index: u64)
        requires
            old(self).wf(),
        ensures
            final(self).wf(),
            final(self)@ == old(self)@.compacted(index),
    {
        let len = self.entries.len();
        if index <= self.snapshot_index || index > self.last_index() {
            return;
        }
        let term = self.entries[(index - self.snapshot_index - 1) as usize].term;
        let offset = (index - self.snapshot_index) as usize;
        let ghost all0 = self.entries@;
        let rest = self.entries.split_off(offset);
        self.entries = rest;
        self.snapshot_index = index;
        self.snapshot_term = term;
        proof {
            lemma_entry_views_subrange(all0, offset as int, all0.len() as int);
        }
        assert(self@.entries =~= old(self)@.entries.skip(offset as int));
    }
}

} // verus!
