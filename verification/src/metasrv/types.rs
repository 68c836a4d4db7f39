//! The values that nodes store and exchange: log entries and what they
//! carry, the hard state, and the membership of the cluster.

use crate::metasrv::membership::{Membership, MembershipModel, NodeId};
use vstd::prelude::*;

verus! {

/// A copy of a sequence of bytes.
pub fn clone_bytes(v: &Vec<u8>) -> (r: Vec<u8>)
    ensures
        r@ == v@,
{
    let r = v.clone();
    assert(r@ =~= v@);
    r
}

/// A change to the value of one key.
#[derive(Debug, PartialEq, Eq)]
pub enum WriteOp {
    /// Sets the key's value, whatever it was.
    Put { key: String, value: Vec<u8>, expire_at: Option<u64> },
    /// Sets the key's value if its version is the expected one.
    CompareAndSwap { key: String, expected_version: u64, value: Vec<u8> },
    /// Removes the key.
    Delete { key: String },
}

/// A `WriteOp` with its key and value taken by their contents.
pub enum WriteOpModel {
    Put { key: Seq<char>, value: Seq<u8>, expire_at: Option<u64> },
    CompareAndSwap { key: Seq<char>, expected_version: u64, value: Seq<u8> },
    Delete { key: Seq<char> },
}

impl View for WriteOp {
    type V = WriteOpModel;

    open spec fn view(&self) -> WriteOpModel {
        match self {
            WriteOp::Put { key, value, expire_at } => WriteOpModel::Put {
                key: key@,
                value: value@,
                expire_at: *expire_at,
            },
            WriteOp::CompareAndSwap { key, expected_version, value } => WriteOpModel::CompareAndSwap {
                key: key@,
                expected_version: *expected_version,
                value: value@,
            },
            WriteOp::Delete { key } => WriteOpModel::Delete { key: key@ },
        }
    }
}

impl WriteOpModel {
    /// The key that the operation changes.
    pub open spec fn key(self) -> Seq<char> {
        match self {
            WriteOpModel::Put { key, .. } => key,
            WriteOpModel::CompareAndSwap { key, .. } => key,
            WriteOpModel::Delete { key } => key,
        }
    }
}

impl WriteOp {
    /// A copy of the operation.
    pub fn clone_op(&self) -> (r: WriteOp)
        ensures
            r@ == self@,
    {
        match self {
            WriteOp::Put { key, value, expire_at } => WriteOp::Put {
                key: key.clone(),
                value: clone_bytes(value),
                expire_at: *expire_at,
            },
            WriteOp::CompareAndSwap { key, expected_version, value } => WriteOp::CompareAndSwap {
                key: key.clone(),
                expected_version: *expected_version,
                value: clone_bytes(value),
            },
            WriteOp::Delete { key } => WriteOp::Delete { key: key.clone() },
        }
    }
}

/// What a log entry carries.
#[derive(Debug, PartialEq, Eq)]
pub enum Payload {
    /// Nothing: the entry that a new leader opens its term with.
    NoOp,
    /// A client's write, with the time that the leader gave it when it was
    /// proposed. Applying the entry reads no other clock.
    ClientWrite { op: WriteOp, time: u64 },
    /// A new membership of the cluster.
    ConfigChange(Membership),
}

/// A `Payload` taken by its contents.
pub enum PayloadModel {
    NoOp,
    ClientWrite { op: WriteOpModel, time: u64 },
    ConfigChange(MembershipModel),
}

impl View for Payload {
    type V = PayloadModel;

    open spec fn view(&self) -> PayloadModel {
        match self {
            Payload::NoOp => PayloadModel::NoOp,
            Payload::ClientWrite { op, time } => PayloadModel::ClientWrite { op: op@, time: *time },
            Payload::ConfigChange(m) => PayloadModel::ConfigChange(m@),
        }
    }
}

impl Payload {
    /// A copy of the payload.
    pub fn clone_payload(&self) -> (r: Payload)
        ensures
            r@ == self@,
    {
        match self {
            Payload::NoOp => Payload::NoOp,
            Payload::ClientWrite { op, time } => Payload::ClientWrite {
                op: op.clone_op(),
                time: *time,
            },
            Payload::ConfigChange(m) => Payload::ConfigChange(m.clone_membership()),
        }
    }
}

/// An entry of the replicated log.
#[derive(Debug, PartialEq, Eq)]
pub struct LogEntry {
    pub index: u64,
    pub term: u64,
    pub payload: Payload,
}

/// A `LogEntry` taken by its contents.
pub struct EntryModel {
    pub index: u64,
    pub term: u64,
    pub payload: PayloadModel,
}

impl View for LogEntry {
    type V = EntryModel;

    open spec fn view(&self) -> EntryModel {
        EntryModel { index: self.index, term: self.term, payload: self.payload@ }
    }
}

impl LogEntry {
    /// A copy of the entry.
    pub fn clone_entry(&self) -> (r: LogEntry)
        ensures
            r@ == self@,
    {
        LogEntry { index: self.index, term: self.term, payload: self.payload.clone_payload() }
    }
}

/// The models of a sequence of entries.
pub open spec fn entries_model(entries: Seq<LogEntry>) -> Seq<EntryModel> {
    entries.map_values(|e: LogEntry| e@)
}

/// A copy of the entries from position `from` on.
pub fn clone_entries_from(entries: &Vec<LogEntry>, from: usize) -> (r: Vec<LogEntry>)
    requires
        from <= entries.len(),
    ensures
        entries_model(r@) == entries_model(entries@).subrange(from as int, entries.len() as int),
{
    let mut out: Vec<LogEntry> = Vec::new();
    let mut i: usize = from;
    assert(entries_model(out@) =~= entries_model(entries@).subrange(from as int, from as int));
    while i < entries.len()
        invariant
            from <= i <= entries.len(),
            entries_model(out@) == entries_model(entries@).subrange(from as int, i as int),
        decreases entries.len() - i,
    {
        let ghost before = out@;
        out.push(entries[i].clone_entry());
        proof {
            assert(entries_model(out@) =~= entries_model(before).push(entries@[i as int]@));
            assert(entries_model(entries@).subrange(from as int, i + 1) =~= entries_model(
                entries@,
            ).subrange(from as int, i as int).push(entries@[i as int]@));
        }
        i += 1;
    }
    out
}

/// What a node must not forget across a crash: the latest term it has
/// seen, and the candidate it voted for in that term.
#[derive(Clone, Copy, Debug, PartialEq, Eq, Structural)]
pub struct HardState {
    pub current_term: u64,
    pub voted_for: Option<NodeId>,
}

} // verus!
