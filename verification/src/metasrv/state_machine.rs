//! The state machine: a map from keys to versioned values, and the
//! membership of the cluster, changed only by applying the entries of the
//! log in order.

use crate::metasrv::membership::{Membership, MembershipModel};
use crate::metasrv::types::{
    clone_bytes, EntryModel, LogEntry, Payload, PayloadModel, WriteOp, WriteOpModel,
};
use crate::str_map::StrMap;
use vstd::prelude::*;

verus! {

/// The value of a key: its bytes, how often the key was written, and when
/// the value expires.
#[derive(Debug, PartialEq, Eq)]
pub struct KvRecord {
    pub value: Vec<u8>,
    pub version: u64,
    pub expire_at: Option<u64>,
}

/// A `KvRecord` with its value taken by its bytes.
pub struct RecordModel {
    pub value: Seq<u8>,
    pub version: u64,
    pub expire_at: Option<u64>,
}

impl View for KvRecord {
    type V = RecordModel;

    open spec fn view(&self) -> RecordModel {
        RecordModel { value: self.value@, version: self.version, expire_at: self.expire_at }
    }
}

impl RecordModel {
    /// Whether the value has not expired at the given time.
    pub open spec fn live_at(self, time: u64) -> bool {
        match self.expire_at {
            Some(t) => time < t,
            None => true,
        }
    }
}

impl KvRecord {
    /// A copy of the record.
    pub fn clone_record(&self) -> (r: KvRecord)
        ensures
            r@ == self@,
    {
        KvRecord { value: clone_bytes(&self.value), version: self.version, expire_at: self.expire_at }
    }

    /// Whether the value has not expired at the given time.
    pub fn live_at(&self, time: u64) -> (b: bool)
        ensures
            b == self@.live_at(time),
    {
        match self.expire_at {
            Some(t) => time < t,
            None => true,
        }
    }
}

/// What applying an entry did.
#[derive(Clone, Copy, Debug, PartialEq, Eq, Structural)]
pub enum AppliedResult {
    /// The entry was applied before: nothing changed.
    AlreadyApplied,
    /// The entry is not the next in order: nothing changed.
    OutOfOrder,
    /// The entry carried nothing.
    NoOp,
    /// The key was written and now has this version.
    Written { version: u64 },
    /// The key's version was not the expected one: its value stays.
    VersionMismatch { current: u64 },
    /// The key is gone; `existed` says whether it had a live value.
    Deleted { existed: bool },
    /// The membership was replaced.
    ConfigChanged,
}

/// What a state machine holds.
#[verifier::ext_equal]
pub struct StateModel {
    pub last_applied: u64,
    pub last_applied_term: u64,
    pub kv: Map<Seq<char>, RecordModel>,
    pub membership: MembershipModel,
}

impl StateModel {
    /// The state before any entry: no keys, and the given membership.
    pub open spec fn initial(membership: MembershipModel) -> StateModel {
        StateModel { last_applied: 0, last_applied_term: 0, kv: Map::empty(), membership }
    }

    /// The keys are finitely many, and no key was written more often than
    /// entries were applied.
    pub open spec fn wf(self) -> bool {
        &&& self.kv.dom().finite()
        &&& self.membership.wf()
        &&& forall|k: Seq<char>| #[trigger]
            self.kv.contains_key(k) ==> 1 <= self.kv[k].version <= self.last_applied
    }

    /// The key's value as a reader sees it at the given time: none once it
    /// has expired.
    pub open spec fn get(self, key: Seq<char>, time: u64) -> Option<RecordModel> {
        if self.kv.contains_key(key) && self.kv[key].live_at(time) {
            Some(self.kv[key])
        } else {
            None
        }
    }

    /// The key's version at the given time: 0 if it has no live value.
    pub open spec fn version_of(self, key: Seq<char>, time: u64) -> u64 {
        match self.get(key, time) {
            Some(r) => r.version,
            None => 0,
        }
    }

    /// The state after a write at the given time, and what the write did.
    pub open spec fn write(self, op: WriteOpModel, time: u64) -> (StateModel, AppliedResult) {
        let current = self.version_of(op.key(), time);
        match op {
            WriteOpModel::Put { key, value, expire_at } => (
                StateModel {
                    kv: self.kv.insert(
                        key,
                        RecordModel { value, version: (current + 1) as u64, expire_at },
                    ),
                    ..self
                },
                AppliedResult::Written { version: (current + 1) as u64 },
            ),
            WriteOpModel::CompareAndSwap { key, expected_version, value } => {
                if current != expected_version {
                    (self, AppliedResult::VersionMismatch { current })
                } else {
                    (
                        StateModel {
                            kv: self.kv.insert(
                                key,
                                RecordModel {
                                    value,
                                    version: (current + 1) as u64,
                                    expire_at: None,
                                },
                            ),
                            ..self
                        },
                        AppliedResult::Written { version: (current + 1) as u64 },
                    )
                }
            },
            WriteOpModel::Delete { key } => (
                StateModel { kv: self.kv.remove(key), ..self },
                AppliedResult::Deleted { existed: current != 0 },
            ),
        }
    }

    /// The image of the state: the state itself, as it is now.
    pub open spec fn snapshot(self) -> StateModel {
        self
    }

    /// The state after an image was installed: the image, whatever the
    /// state was.
    pub open spec fn install(self, image: StateModel) -> StateModel {
        image
    }

    /// The state after an entry, and what applying it did. Only the entry
    /// right after the last applied one changes the state.
    pub open spec fn apply(self, entry: EntryModel) -> (StateModel, AppliedResult) {
        if entry.index <= self.last_applied {
            (self, AppliedResult::AlreadyApplied)
        } else if entry.index != self.last_applied + 1 {
            (self, AppliedResult::OutOfOrder)
        } else {
            let next = StateModel {
                last_applied: entry.index,
                last_applied_term: entry.term,
                ..self
            };
            match entry.payload {
                PayloadModel::NoOp => (next, AppliedResult::NoOp),
                PayloadModel::ClientWrite { op, time } => next.write(op, time),
                PayloadModel::ConfigChange(m) => (
                    StateModel { membership: m, ..next },
                    AppliedResult::ConfigChanged,
                ),
            }
        }
    }
}

/// Whether the membership that an entry carries, if it carries one, lists
/// no node twice.
pub open spec fn entry_wf(entry: EntryModel) -> bool {
    entry.payload matches PayloadModel::ConfigChange(m) ==> m.wf()
}

/// Applying an entry keeps the state well-formed.
pub proof fn lemma_apply_wf(s: StateModel, entry: EntryModel)
    requires
        s.wf(),
        entry_wf(entry),
    ensures
        s.apply(entry).0.wf(),
        s.apply(entry).0.last_applied >= s.last_applied,
{
}

/// Applying an entry a second time changes nothing: the state after two
/// applications is the state after one, and the second reports that the
/// entry was applied before or is out of order.
pub proof fn lemma_apply_idempotent(s: StateModel, entry: EntryModel)
    ensures
        s.apply(entry).0.apply(entry).0 == s.apply(entry).0,
        s.apply(entry).0.apply(entry).1 == AppliedResult::AlreadyApplied || s.apply(
            entry,
        ).0.apply(entry).1 == AppliedResult::OutOfOrder,
{
}

/// Whether keys and records can make an image at the given index: no key
/// comes twice, and every version is at least 1 and at most the index.
pub open spec fn parts_valid(records: Seq<(String, KvRecord)>, last_included_index: u64) -> bool {
    &&& forall|a: int, b: int|
        0 <= a < b < records.len() ==> (#[trigger] records[a]).0@ != (#[trigger] records[b]).0@
    &&& forall|a: int|
        0 <= a < records.len() ==> 1 <= (#[trigger] records[a]).1.version <= last_included_index
}

/// A point-in-time image of a state machine: the state after the entry at
/// `last_included_index`.
#[derive(Debug)]
pub struct Snapshot {
    last_included_index: u64,
    last_included_term: u64,
    records: StrMap<KvRecord>,
    membership: Membership,
}

/// The key-value state machine of one node.
#[derive(Debug)]
pub struct StateMachine {
    last_applied: u64,
    last_applied_term: u64,
    kv: StrMap<KvRecord>,
    membership: Membership,
}

/// The models of the records of a map.
pub open spec fn records_model(m: Map<Seq<char>, KvRecord>) -> Map<Seq<char>, RecordModel> {
    m.map_values(|r: KvRecord| r@)
}

impl View for Snapshot {
    type V = StateModel;

    closed spec fn view(&self) -> StateModel {
        StateModel {
            last_applied: self.last_included_index,
            last_applied_term: self.last_included_term,
            kv: records_model(self.records@),
            membership: self.membership@,
        }
    }
}

impl View for StateMachine {
    type V = StateModel;

    closed spec fn view(&self) -> StateModel {
        StateModel {
            last_applied: self.last_applied,
            last_applied_term: self.last_applied_term,
            kv: records_model(self.kv@),
            membership: self.membership@,
        }
    }
}

/// A copy of a map of records.
fn clone_records(m: &StrMap<KvRecord>) -> (r: StrMap<KvRecord>)
    requires
        m.wf(),
    ensures
        r.wf(),
        records_model(r@) == records_model(m@),
{
    let mut out: StrMap<KvRecord> = StrMap::new();
    let n = m.len();
    let mut i: usize = 0;
    proof {
        m.lemma_entries();
        assert(out.keys() =~= m.keys().take(0));
    }
    while i < n
        invariant
            0 <= i <= n,
            n == m.keys().len(),
            m.wf(),
            out.wf(),
            out.keys() == m.keys().take(i as int),
            forall|j: int| 0 <= j < i ==> (#[trigger] out.value_at(j))@ == m.value_at(j)@,
        decreases n - i,
    {
        proof {
            m.lemma_entries();
            out.lemma_entries();
        }
        let key = m.key(i).clone();
        let value = m.value(i).clone_record();
        proof {
            if out@.contains_key(key@) {
                let j = choose|j: int| 0 <= j < out.keys().len() && out.keys()[j] == key@;
                assert(m.keys()[j] == m.keys()[i as int]);
            }
        }
        let ghost before = out;
        out.insert(key, value);
        proof {
            assert(out.keys() =~= m.keys().take(i + 1));
        }
        i += 1;
    }
    proof {
        assert(m.keys().take(n as int) =~= m.keys());
        out.lemma_same_under(m, |r: KvRecord| r@);
    }
    out
}

impl Snapshot {
    /// The keys are finitely many and no version is beyond the index.
    pub closed spec fn wf(&self) -> bool {
        &&& self.records.wf()
        &&& self@.wf()
    }

    /// A well-formed image has a well-formed model.
    pub proof fn lemma_wf(&self)
        requires
            self.wf(),
        ensures
            self@.wf(),
    {
    }

    /// The index of the last entry that the image includes.
    pub fn last_included_index(&self) -> (i: u64)
        ensures
            i == self@.last_applied,
    {
        self.last_included_index
    }

    /// The term of the last entry that the image includes.
    pub fn last_included_term(&self) -> (t: u64)
        ensures
            t == self@.last_applied_term,
    {
        self.last_included_term
    }

    /// The membership at the image's index.
    pub fn membership(&self) -> (m: &Membership)
        ensures
            m@ == self@.membership,
    {
        &self.membership
    }

    /// An image made of its parts, as they come off the wire or the disk.
    /// `None` if a key comes twice or a version is 0 or beyond the index.
    pub fn from_parts(
        last_included_index: u64,
        last_included_term: u64,
        records: Vec<(String, KvRecord)>,
        membership: Membership,
    ) -> (r: Option<Snapshot>)
        ensures
            match r {
                Some(s) => {
                    &&& s.wf()
                    &&& s@.last_applied == last_included_index
                    &&& s@.last_applied_term == last_included_term
                    &&& s@.membership == membership@
                    &&& parts_valid(records@, last_included_index)
                    &&& s@.kv.dom() == Set::new(
                        |k: Seq<char>|
                            exists|i: int| 0 <= i < records@.len() && records@[i].0@ == k,
                    )
                    &&& forall|i: int|
                        0 <= i < records@.len() ==> s@.kv[(#[trigger] records@[i]).0@]
                            == records@[i].1@
                },
                None => !parts_valid(records@, last_included_index),
            },
    {
        membership.check();
        let mut kv: StrMap<KvRecord> = StrMap::new();
        let mut i: usize = 0;
        while i < records.len()
            invariant
                0 <= i <= records.len(),
                kv.wf(),
                parts_valid(records@.take(i as int), last_included_index),
                forall|k: Seq<char>|
                    kv@.contains_key(k) <==> exists|j: int| 0 <= j < i && records@[j].0@ == k,
                forall|j: int| 0 <= j < i ==> kv@[(#[trigger] records@[j]).0@]@ == records@[j].1@,
            decreases records.len() - i,
        {
            let key = &records[i].0;
            let record = &records[i].1;
            if kv.contains_key(key) || record.version == 0 || record.version > last_included_index {
                proof {
                    if parts_valid(records@, last_included_index) {
                        if kv@.contains_key(key@) {
                            let j = choose|j: int| 0 <= j < i && records@[j].0@ == key@;
                            assert(records@[j].0@ != records@[i as int].0@);
                        }
                    }
                }
                return None;
            }
            let ghost before = kv@;
            kv.insert(key.clone(), record.clone_record());
            proof {
                assert forall|j: int| 0 <= j < i + 1 implies kv@[(#[trigger] records@[j]).0@]@
                    == records@[j].1@ by {
                    if j < i {
                        assert(before.contains_key(records@[j].0@));
                    }
                }
                assert forall|a: int, b: int| 0 <= a < b < i + 1 implies (#[trigger] records@.take(
                    i + 1,
                )[a]).0@ != (#[trigger] records@.take(i + 1)[b]).0@ by {
                    if b < i {
                        assert(records@.take(i as int)[a].0@ != records@.take(i as int)[b].0@);
                    } else {
                        assert(!before.contains_key(records@[i as int].0@));
                    }
                }
                assert forall|a: int| 0 <= a < i + 1 implies 1 <= (#[trigger] records@.take(
                    i + 1,
                )[a]).1.version <= last_included_index by {
                    if a < i {
                        assert(1 <= records@.take(i as int)[a].1.version);
                    }
                }
            }
            i += 1;
        }
        proof {
            assert(records@.take(records@.len() as int) =~= records@);
        }
        let s = Snapshot { last_included_index, last_included_term, records: kv, membership };
        proof {
            kv.lemma_entries();
            assert(s@.kv.dom() =~= kv@.dom());
            assert(s@.kv.dom() =~= Set::new(
                |k: Seq<char>| exists|i: int| 0 <= i < records@.len() && records@[i].0@ == k,
            ));
            assert forall|i: int| 0 <= i < records@.len() implies s@.kv[(#[trigger] records@[i]).0@]
                == records@[i].1@ by {
                assert(kv@.contains_key(records@[i].0@));
                assert(kv@[records@[i].0@]@ == records@[i].1@);
            }
            assert forall|k: Seq<char>| #[trigger] s@.kv.contains_key(k) implies 1
                <= s@.kv[k].version <= s@.last_applied by {
                let j = choose|j: int| 0 <= j < records@.len() && records@[j].0@ == k;
                assert(kv@[records@[j].0@]@ == records@[j].1@);
            }
        }
        Some(s)
    }

    /// The keys and records of the image, in no particular order.
    pub fn records(&self) -> (r: Vec<(String, KvRecord)>)
        requires
            self.wf(),
        ensures
            r@.len() == self@.kv.len(),
            forall|i: int|
                0 <= i < r@.len() ==> self@.kv.contains_key((#[trigger] r@[i]).0@)
                    && self@.kv[r@[i].0@] == r@[i].1@,
            forall|i: int, j: int| 0 <= i < j < r@.len() ==> r@[i].0@ != r@[j].0@,
            forall|k: Seq<char>| #[trigger]
                self@.kv.contains_key(k) ==> exists|i: int| 0 <= i < r@.len() && r@[i].0@ == k,
    {
        let mut out: Vec<(String, KvRecord)> = Vec::new();
        let n = self.records.len();
        let mut i: usize = 0;
        proof {
            self.records.lemma_entries();
            assert(self@.kv.dom() =~= self.records@.dom());
        }
        while i < n
            invariant
                0 <= i <= n,
                n == self.records.keys().len(),
                self.records.wf(),
                out@.len() == i,
                forall|j: int|
                    0 <= j < i ==> (#[trigger] out@[j]).0@ == self.records.keys()[j] && out@[j].1@
                        == self.records.value_at(j)@,
            decreases n - i,
        {
            let key = self.records.key(i).clone();
            let value = self.records.value(i).clone_record();
            out.push((key, value));
            i += 1;
        }
        proof {
            assert forall|k: Seq<char>| #[trigger] self@.kv.contains_key(k) implies exists|i: int|
                0 <= i < out@.len() && out@[i].0@ == k by {
                assert(self.records@.contains_key(k));
                let j = choose|j: int|
                    0 <= j < self.records.keys().len() && self.records.keys()[j] == k;
                assert(out@[j].0@ == k);
            }
        }
        out
    }

    /// A copy of the image.
    pub fn clone_snapshot(&self) -> (r: Snapshot)
        requires
            self.wf(),
        ensures
            r.wf(),
            r@ == self@,
    {
        Snapshot {
            last_included_index: self.last_included_index,
            last_included_term: self.last_included_term,
            records: clone_records(&self.records),
            membership: self.membership.clone_membership(),
        }
    }
}

impl StateMachine {
    /// The keys are finitely many and no version is beyond the last applied
    /// index.
    pub closed spec fn wf(&self) -> bool {
        &&& self.kv.wf()
        &&& self@.wf()
    }

    /// A well-formed state machine has a well-formed model.
    pub proof fn lemma_wf(&self)
        requires
            self.wf(),
        ensures
            self@.wf(),
    {
    }

    /// A state machine to which nothing was applied.
    pub fn new(membership: Membership) -> (sm: StateMachine)
        ensures
            sm.wf(),
            sm@ == StateModel::initial(membership@),
    {
        membership.check();
        let sm = StateMachine { last_applied: 0, last_applied_term: 0, kv: StrMap::new(), membership };
        proof {
            assert(sm@.kv =~= Map::<Seq<char>, RecordModel>::empty());
        }
        sm
    }

    /// The index of the last entry that was applied.
    pub fn last_applied(&self) -> (i: u64)
        ensures
            i == self@.last_applied,
    {
        self.last_applied
    }

    /// The membership after the last entry that was applied.
    pub fn membership(&self) -> (m: &Membership)
        ensures
            m@ == self@.membership,
    {
        &self.membership
    }

    /// The key's value at the given time, if it has a live one.
    pub fn get(&self, key: &String, time: u64) -> (r: Option<KvRecord>)
        requires
            self.wf(),
        ensures
            match r {
                Some(record) => self@.get(key@, time) == Some(record@),
                None => self@.get(key@, time) is None,
            },
    {
        match self.kv.get(key) {
            Some(record) => {
                if record.live_at(time) {
                    Some(record.clone_record())
                } else {
                    None
                }
            },
            None => None,
        }
    }

    /// The key's version at the given time: 0 if it has no live value.
    fn version_of(&self, key: &String, time: u64) -> (v: u64)
        requires
            self.wf(),
        ensures
            v == self@.version_of(key@, time),
            v <= self@.last_applied,
    {
        match self.kv.get(key) {
            Some(record) => {
                if record.live_at(time) {
                    record.version
                } else {
                    0
                }
            },
            None => 0,
        }
    }

    /// Carries out a write at the given time.
    fn write(&mut self, op: &WriteOp, time: u64) -> (r: AppliedResult)
        requires
            old(self).wf(),
            old(self)@.last_applied >= 1,
            forall|k: Seq<char>| #[trigger]
                old(self)@.kv.contains_key(k) ==> old(self)@.kv[k].version < old(
                    self,
                )@.last_applied,
        ensures
            final(self).wf(),
            (final(self)@, r) == old(self)@.write(op@, time),
    {
        match op {
            WriteOp::Put { key, value, expire_at } => {
                let version = self.version_of(key, time) + 1;
                self.kv.insert(
                    key.clone(),
                    KvRecord { value: clone_bytes(value), version, expire_at: *expire_at },
                );
                proof {
                    assert(final(self)@.kv =~= old(self)@.write(op@, time).0.kv);
                }
                AppliedResult::Written { version }
            },
            WriteOp::CompareAndSwap { key, expected_version, value } => {
                let current = self.version_of(key, time);
                if current != *expected_version {
                    return AppliedResult::VersionMismatch { current };
                }
                let version = current + 1;
                self.kv.insert(
                    key.clone(),
                    KvRecord { value: clone_bytes(value), version, expire_at: None },
                );
                proof {
                    assert(final(self)@.kv =~= old(self)@.write(op@, time).0.kv);
                }
                AppliedResult::Written { version }
            },
            WriteOp::Delete { key } => {
                let current = self.version_of(key, time);
                self.kv.remove(key);
                proof {
                    assert(final(self)@.kv =~= old(self)@.write(op@, time).0.kv);
                }
                AppliedResult::Deleted { existed: current != 0 }
            },
        }
    }

    /// Applies an entry. Only the entry right after the last applied one
    /// changes the state; any other is reported and left out. No clock is
    /// read: a write uses the time that its entry carries.
    pub fn apply(&mut self, entry: &LogEntry) -> (r: AppliedResult)
        requires
            old(self).wf(),
        ensures
            final(self).wf(),
            (final(self)@, r) == old(self)@.apply(entry@),
    {
        if entry.index <= self.last_applied {
            return AppliedResult::AlreadyApplied;
        }
        if entry.index - 1 != self.last_applied {
            return AppliedResult::OutOfOrder;
        }
        self.last_applied = entry.index;
        self.last_applied_term = entry.term;
        match &entry.payload {
            Payload::NoOp => AppliedResult::NoOp,
            Payload::ClientWrite { op, time } => self.write(op, *time),
            Payload::ConfigChange(m) => {
                self.membership = m.clone_membership();
                AppliedResult::ConfigChanged
            },
        }
    }

    /// An image of the state as it is now.
    pub fn snapshot(&self) -> (s: Snapshot)
        requires
            self.wf(),
        ensures
            s.wf(),
            s@ == self@.snapshot(),
    {
        Snapshot {
            last_included_index: self.last_applied,
            last_included_term: self.last_applied_term,
            records: clone_records(&self.kv),
            membership: self.membership.clone_membership(),
        }
    }

    /// Replaces the state by an image, and returns the index of the last
    /// entry that the image includes.
    pub fn install_snapshot(&mut self, snapshot: Snapshot) -> (last_included_index: u64)
        requires
            snapshot.wf(),
        ensures
            final(self).wf(),
            final(self)@ == old(self)@.install(snapshot@),
            last_included_index == snapshot@.last_applied,
    {
        let index = snapshot.last_included_index;
        self.last_applied = snapshot.last_included_index;
        self.last_applied_term = snapshot.last_included_term;
        self.kv = snapshot.records;
        self.membership = snapshot.membership;
        index
    }
}

/// Taking an image of a state and installing it, on a fresh state machine
/// or on any other, gives the state that the image was taken of, at the
/// index that the image includes.
pub proof fn lemma_snapshot_round_trip(source: StateModel, target: StateModel)
    ensures
        target.install(source.snapshot()) == source,
        target.install(source.snapshot()).last_applied == source.snapshot().last_applied,
        source.wf() ==> target.install(source.snapshot()).wf(),
{
}

} // verus!
