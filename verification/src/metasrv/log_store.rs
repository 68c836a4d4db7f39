//! The log store: the entries of the replicated log after the last
//! compaction, and the node's hard state. It is the image of what the node
//! keeps on disk; whoever runs the node writes it out before acting on it.

use crate::metasrv::types::{clone_entries_from, entries_model, EntryModel, HardState, LogEntry};
use vstd::prelude::*;

verus! {

/// The replicated log of one node: the entries after index `base_index`,
/// in order and without gaps. Everything up to `base_index` has been
/// compacted away; `base_term` is the term of the entry at `base_index`.
#[verifier::ext_equal]
pub struct LogModel {
    pub base_index: u64,
    pub base_term: u64,
    pub entries: Seq<EntryModel>,
}

impl LogModel {
    /// The empty log of a new node.
    pub open spec fn empty() -> LogModel {
        LogModel { base_index: 0, base_term: 0, entries: Seq::empty() }
    }

    /// The indexes run on from `base_index` without a gap.
    pub open spec fn wf(self) -> bool {
        &&& self.base_index + self.entries.len() <= u64::MAX
        &&& forall|k: int|
            0 <= k < self.entries.len() ==> (#[trigger] self.entries[k]).index == self.base_index
                + 1 + k
    }

    /// The index of the last entry, or `base_index` if there is none.
    pub open spec fn last_index(self) -> int {
        self.base_index + self.entries.len()
    }

    /// The term of the last entry, or `base_term` if there is none.
    pub open spec fn last_term(self) -> u64 {
        if self.entries.len() == 0 {
            self.base_term
        } else {
            self.entries.last().term
        }
    }

    /// Whether the log holds an entry at the index.
    pub open spec fn has(self, index: int) -> bool {
        self.base_index < index <= self.last_index()
    }

    /// The entry at an index that the log holds.
    pub open spec fn at(self, index: int) -> EntryModel
        recommends
            self.has(index),
    {
        self.entries[index - self.base_index - 1]
    }

    /// The term of the entry at the index, where the log knows it: for the
    /// entries it holds and for `base_index`.
    pub open spec fn term_at(self, index: int) -> Option<u64> {
        if index == self.base_index {
            Some(self.base_term)
        } else if self.has(index) {
            Some(self.at(index).term)
        } else {
            None
        }
    }

    /// Whether the entries would continue the log without a gap.
    pub open spec fn continued_by(self, entries: Seq<EntryModel>) -> bool {
        forall|k: int|
            0 <= k < entries.len() ==> (#[trigger] entries[k]).index == self.last_index() + 1 + k
    }

    /// The log with the entries added at its end.
    pub open spec fn append(self, entries: Seq<EntryModel>) -> LogModel {
        LogModel { entries: self.entries + entries, ..self }
    }

    /// The number of entries with an index of at most `index`.
    pub open spec fn count_upto(self, index: int) -> int {
        if index <= self.base_index {
            0
        } else if index >= self.last_index() {
            self.entries.len() as int
        } else {
            index - self.base_index
        }
    }

    /// The log without the entries after `index`.
    pub open spec fn truncate_after(self, index: int) -> LogModel {
        LogModel { entries: self.entries.take(self.count_upto(index)), ..self }
    }

    /// The log without the entries before `index`, if it holds the entry
    /// just before `index`; else the log as it is.
    pub open spec fn purge_before(self, index: int) -> LogModel {
        if self.has(index - 1) {
            LogModel {
                base_index: (index - 1) as u64,
                base_term: self.at(index - 1).term,
                entries: self.entries.skip(index - 1 - self.base_index),
            }
        } else {
            self
        }
    }

    /// The entries with `lo <= index < hi`.
    pub open spec fn range(self, lo: int, hi: int) -> Seq<EntryModel> {
        let from = self.count_upto(lo - 1);
        let to = self.count_upto(hi - 1);
        if from < to {
            self.entries.subrange(from, to)
        } else {
            Seq::empty()
        }
    }
}

/// What a `LogStore` holds.
#[verifier::ext_equal]
pub struct StoreModel {
    pub hard_state: HardState,
    pub log: LogModel,
}

/// Why the store did not take entries.
#[derive(Clone, Copy, Debug, PartialEq, Eq, Structural)]
pub enum StoreError {
    /// The entries do not start right after the last entry, or leave a gap.
    NotContiguous,
}

/// The log and the hard state of one node.
#[derive(Debug)]
pub struct LogStore {
    hard_state: HardState,
    base_index: u64,
    base_term: u64,
    entries: Vec<LogEntry>,
}

impl View for LogStore {
    type V = StoreModel;

    closed spec fn view(&self) -> StoreModel {
        StoreModel {
            hard_state: self.hard_state,
            log: LogModel {
                base_index: self.base_index,
                base_term: self.base_term,
                entries: entries_model(self.entries@),
            },
        }
    }
}

/// Truncating twice at the same index is truncating once.
pub proof fn lemma_truncate_idempotent(log: LogModel, index: int)
    requires
        log.wf(),
    ensures
        log.truncate_after(index).wf(),
        log.truncate_after(index).truncate_after(index) == log.truncate_after(index),
{
    let once = log.truncate_after(index);
    assert(once.entries.take(once.count_upto(index)) =~= once.entries);
}

/// Truncating keeps the entries up to the index as they are and leaves
/// none after it.
pub proof fn lemma_truncate_keeps(log: LogModel, index: int)
    requires
        log.wf(),
    ensures
        log.truncate_after(index).wf(),
        forall|i: int| #[trigger]
            log.truncate_after(index).has(i) <==> log.has(i) && i <= index,
        forall|i: int|
            log.has(i) && i <= index ==> #[trigger] log.truncate_after(index).at(i) == log.at(i),
{
}

impl LogStore {
    /// The indexes run on from the base without a gap.
    pub open spec fn wf(&self) -> bool {
        self@.log.wf()
    }

    /// The model holds the entries' models, in order.
    proof fn lemma_view(&self)
        ensures
            self@.log.base_index == self.base_index,
            self@.log.base_term == self.base_term,
            self@.log.entries.len() == self.entries@.len(),
            self.entries@.len() <= usize::MAX,
            forall|k: int|
                0 <= k < self.entries@.len() ==> #[trigger] self@.log.entries[k]
                    == self.entries@[k]@,
    {
        assert(self.entries.len() == self.entries@.len());
    }

    /// The store of a new node: no entries, term 0, no vote.
    pub fn new() -> (s: LogStore)
        ensures
            s.wf(),
            s@ == (StoreModel {
                hard_state: HardState { current_term: 0, voted_for: None },
                log: LogModel::empty(),
            }),
    {
        let s = LogStore {
            hard_state: HardState { current_term: 0, voted_for: None },
            base_index: 0,
            base_term: 0,
            entries: Vec::new(),
        };
        proof {
            assert(s@.log.entries =~= Seq::<EntryModel>::empty());
        }
        s
    }

    /// The hard state.
    pub fn read_hard_state(&self) -> (hs: HardState)
        ensures
            hs == self@.hard_state,
    {
        self.hard_state
    }

    /// Replaces the hard state.
    pub fn write_hard_state(&mut self, hs: HardState)
        ensures
            final(self)@ == (StoreModel { hard_state: hs, ..old(self)@ }),
    {
        self.hard_state = hs;
    }

    /// The index up to which the log was compacted.
    pub fn base_index(&self) -> (i: u64)
        ensures
            i == self@.log.base_index,
    {
        self.base_index
    }

    /// The term of the entry at `base_index`.
    pub fn base_term(&self) -> (t: u64)
        ensures
            t == self@.log.base_term,
    {
        self.base_term
    }

    /// The index of the last entry.
    pub fn last_index(&self) -> (i: u64)
        requires
            self.wf(),
        ensures
            i == self@.log.last_index(),
    {
        proof {
            self.lemma_view();
        }
        self.base_index + self.entries.len() as u64
    }

    /// The term of the last entry.
    pub fn last_term(&self) -> (t: u64)
        requires
            self.wf(),
        ensures
            t == self@.log.last_term(),
    {
        proof {
            self.lemma_view();
        }
        let n = self.entries.len();
        if n == 0 {
            self.base_term
        } else {
            self.entries[n - 1].term
        }
    }

    /// The entry at an index, if the log holds it.
    pub fn entry(&self, index: u64) -> (r: Option<&LogEntry>)
        requires
            self.wf(),
        ensures
            match r {
                Some(e) => self@.log.has(index as int) && e@ == self@.log.at(index as int),
                None => !self@.log.has(index as int),
            },
    {
        proof {
            self.lemma_view();
        }
        if index <= self.base_index || index > self.last_index() {
            None
        } else {
            Some(&self.entries[(index - self.base_index - 1) as usize])
        }
    }

    /// The term of the entry at an index, where the log knows it.
    pub fn term_at(&self, index: u64) -> (r: Option<u64>)
        requires
            self.wf(),
        ensures
            r == self@.log.term_at(index as int),
    {
        if index == self.base_index {
            Some(self.base_term)
        } else {
            match self.entry(index) {
                Some(e) => Some(e.term),
                None => None,
            }
        }
    }

    /// The number of entries with an index of at most `index`.
    fn count_upto(&self, index: u64) -> (n: usize)
        requires
            self.wf(),
        ensures
            n == self@.log.count_upto(index as int),
            n <= self.entries@.len(),
    {
        proof {
            self.lemma_view();
        }
        if index <= self.base_index {
            0
        } else if index >= self.last_index() {
            self.entries.len()
        } else {
            (index - self.base_index) as usize
        }
    }

    /// The entries with `lo <= index < hi`, as far as the log holds them.
    pub fn get(&self, lo: u64, hi: u64) -> (r: Vec<LogEntry>)
        requires
            self.wf(),
        ensures
            entries_model(r@) == self@.log.range(lo as int, hi as int),
    {
        proof {
            self.lemma_view();
        }
        let from = if lo == 0 {
            0
        } else {
            self.count_upto(lo - 1)
        };
        let to = if hi == 0 {
            0
        } else {
            self.count_upto(hi - 1)
        };
        let mut out: Vec<LogEntry> = Vec::new();
        if from >= to {
            proof {
                assert(entries_model(out@) =~= Seq::<EntryModel>::empty());
            }
            return out;
        }
        let mut i: usize = from;
        proof {
            assert(entries_model(out@) =~= self@.log.entries.subrange(from as int, from as int));
        }
        while i < to
            invariant
                from <= i <= to <= self.entries@.len(),
                entries_model(out@) == self@.log.entries.subrange(from as int, i as int),
            decreases to - i,
        {
            let ghost before = out@;
            out.push(self.entries[i].clone_entry());
            proof {
                assert(entries_model(out@) =~= entries_model(before).push(self.entries@[i as int]@));
                assert(self@.log.entries.subrange(from as int, i + 1) =~= self@.log.entries.subrange(
                    from as int,
                    i as int,
                ).push(self.entries@[i as int]@));
            }
            i += 1;
        }
        out
    }

    /// Adds entries at the end of the log. They must continue it without a
    /// gap; if they do not, the log stays as it is.
    pub fn append(&mut self, entries: Vec<LogEntry>) -> (r: Result<(), StoreError>)
        requires
            old(self).wf(),
        ensures
            final(self).wf(),
            match r {
                Ok(()) => old(self)@.log.continued_by(entries_model(entries@)) && final(self)@ == (
                StoreModel {
                    log: old(self)@.log.append(entries_model(entries@)),
                    ..old(self)@
                }),
                Err(e) => !old(self)@.log.continued_by(entries_model(entries@)) && final(self)@
                    == old(self)@ && e == StoreError::NotContiguous,
            },
    {
        proof {
            self.lemma_view();
        }
        let last = self.last_index();
        let mut i: usize = 0;
        while i < entries.len()
            invariant
                0 <= i <= entries.len(),
                self.wf(),
                *self == *old(self),
                last == self@.log.last_index(),
                last + i <= u64::MAX,
                forall|k: int| 0 <= k < i ==> (#[trigger] entries@[k]).index == last + 1 + k,
            decreases entries.len() - i,
        {
            if last > u64::MAX - 1 - (i as u64) || entries[i].index != last + 1 + (i as u64) {
                proof {
                    assert(entries_model(entries@)[i as int].index == entries@[i as int].index);
                }
                return Err(StoreError::NotContiguous);
            }
            i += 1;
        }
        proof {
            assert forall|k: int| 0 <= k < entries@.len() implies (#[trigger] entries_model(
                entries@,
            )[k]).index == last + 1 + k by {
                assert(entries@[k].index == last + 1 + k);
            }
        }
        let ghost before = self.entries@;
        let mut entries = entries;
        let ghost added = entries@;
        self.entries.append(&mut entries);
        proof {
            assert(entries_model(self.entries@) =~= entries_model(before) + entries_model(added));
            assert forall|k: int| 0 <= k < self@.log.entries.len() implies (
            #[trigger] self@.log.entries[k]).index == self@.log.base_index + 1 + k by {
                if k < before.len() {
                    assert(self@.log.entries[k] == old(self)@.log.entries[k]);
                } else {
                    assert(self@.log.entries[k] == entries_model(added)[k - before.len()]);
                }
            }
        }
        Ok(())
    }

    /// Removes the entries after `index`. Removing them a second time
    /// changes nothing.
    pub fn truncate_after(&mut self, index: u64)
        requires
            old(self).wf(),
        ensures
            final(self).wf(),
            final(self)@ == (StoreModel {
                log: old(self)@.log.truncate_after(index as int),
                ..old(self)@
            }),
    {
        proof {
            self.lemma_view();
        }
        let keep = self.count_upto(index);
        let ghost before = self.entries@;
        self.entries.truncate(keep);
        proof {
            assert(entries_model(self.entries@) =~= entries_model(before).take(keep as int));
        }
    }

    /// Removes the entries before `index`, if the log holds the entry just
    /// before `index`, which then becomes the base of the log.
    pub fn purge_before(&mut self, index: u64)
        requires
            old(self).wf(),
        ensures
            final(self).wf(),
            final(self)@ == (StoreModel {
                log: old(self)@.log.purge_before(index as int),
                ..old(self)@
            }),
    {
        proof {
            self.lemma_view();
        }
        if index == 0 || index - 1 <= self.base_index || index - 1 > self.last_index() {
            return ;
        }
        let cut = (index - 1 - self.base_index) as usize;
        let ghost before = self.entries@;
        let base_term = self.entries[cut - 1].term;
        let rest = self.entries.split_off(cut);
        self.entries = rest;
        self.base_index = index - 1;
        self.base_term = base_term;
        proof {
            assert(entries_model(self.entries@) =~= entries_model(before).skip(cut as int));
            assert forall|k: int| 0 <= k < self@.log.entries.len() implies (
            #[trigger] self@.log.entries[k]).index == self@.log.base_index + 1 + k by {
                assert(self@.log.entries[k] == old(self)@.log.entries[k + cut]);
            }
        }
    }

    /// Removes every entry and makes the given index and term the base of
    /// the log, as after a snapshot that reaches beyond the log.
    pub fn reset(&mut self, base_index: u64, base_term: u64)
        ensures
            final(self).wf(),
            final(self)@ == (StoreModel {
                log: LogModel { base_index, base_term, entries: Seq::empty() },
                ..old(self)@
            }),
    {
        self.entries = Vec::new();
        self.base_index = base_index;
        self.base_term = base_term;
        proof {
            assert(entries_model(self.entries@) =~= Seq::<EntryModel>::empty());
        }
    }

    /// A copy of the entries after `index`.
    pub fn entries_after(&self, index: u64) -> (r: Vec<LogEntry>)
        requires
            self.wf(),
        ensures
            entries_model(r@) == self@.log.entries.skip(self@.log.count_upto(index as int)),
    {
        let from = self.count_upto(index);
        clone_entries_from(&self.entries, from)
    }
}

} // verus!
