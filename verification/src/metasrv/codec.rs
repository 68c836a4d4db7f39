//! How a node writes what it keeps to bytes and reads it back: the hard
//! state, the log and the image of the state machine. Numbers are written
//! as eight bytes, the lowest first; a sequence is written as its length
//! and then its items; a choice is written as one byte that names it and
//! then what it holds. Reading is strict: bytes that no value is written
//! as are refused, and so are bytes that go on after the value.

use crate::metasrv::log_store::{LogModel, LogStore};
use crate::metasrv::membership::{Membership, MembershipModel};
use crate::metasrv::state_machine::{parts_valid, KvRecord, RecordModel, Snapshot, StateModel};
use crate::metasrv::types::{
    clone_bytes, entries_model, EntryModel, HardState, LogEntry, Payload, PayloadModel, WriteOp,
    WriteOpModel,
};
use vstd::bytes::{
    lemma_auto_spec_u64_to_from_le_bytes, spec_u64_from_le_bytes, spec_u64_to_le_bytes,
    u64_from_le_bytes, u64_to_le_bytes,
};
use vstd::prelude::*;
use vstd::slice::{slice_subrange, slice_to_vec};
use vstd::utf8::{
    decode_utf8, encode_utf8, encode_utf8_decode_utf8, encode_utf8_valid_utf8, valid_utf8,
};

verus! {

/// Whether `part` stands in `bytes` at the position `at`.
pub open spec fn holds(bytes: Seq<u8>, at: int, part: Seq<u8>) -> bool {
    0 <= at && at + part.len() <= bytes.len() && bytes.subrange(at, at + part.len()) == part
}

/// Where two parts stand one after the other, each of them stands.
pub proof fn lemma_holds_both(bytes: Seq<u8>, at: int, a: Seq<u8>, b: Seq<u8>)
    requires
        holds(bytes, at, a + b),
    ensures
        holds(bytes, at, a),
        holds(bytes, at + a.len(), b),
{
    let both = bytes.subrange(at, at + (a + b).len());
    assert(bytes.subrange(at, at + a.len()) =~= both.subrange(0, a.len() as int));
    assert((a + b).subrange(0, a.len() as int) =~= a);
    assert(bytes.subrange(at + a.len(), at + a.len() + b.len()) =~= both.subrange(
        a.len() as int,
        (a + b).len() as int,
    ));
    assert((a + b).subrange(a.len() as int, (a + b).len() as int) =~= b);
}

/// A sequence of bytes stands at the start of itself.
pub proof fn lemma_holds_itself(part: Seq<u8>)
    ensures
        holds(part, 0, part),
{
    assert(part.subrange(0, part.len() as int) =~= part);
}

/// A number as bytes: eight of them, the lowest first.
pub open spec fn u64_bytes(v: u64) -> Seq<u8> {
    spec_u64_to_le_bytes(v)
}

/// The number that stands at a position, and the position after it.
pub open spec fn parse_u64(bytes: Seq<u8>, at: int) -> Option<(u64, int)> {
    if 0 <= at && at + 8 <= bytes.len() {
        Some((spec_u64_from_le_bytes(bytes.subrange(at, at + 8)), at + 8))
    } else {
        None
    }
}

/// A number takes eight bytes.
pub proof fn lemma_u64_bytes_len(v: u64)
    ensures
        u64_bytes(v).len() == 8,
{
    lemma_auto_spec_u64_to_from_le_bytes();
}

/// Where a number was written, it is read.
pub proof fn lemma_parse_u64(bytes: Seq<u8>, at: int, v: u64)
    requires
        holds(bytes, at, u64_bytes(v)),
    ensures
        parse_u64(bytes, at) == Some((v, at + 8)),
{
    lemma_auto_spec_u64_to_from_le_bytes();
}

/// A number or none as bytes: the byte 0 for none, the byte 1 and the
/// number for one.
pub open spec fn option_bytes(o: Option<u64>) -> Seq<u8> {
    match o {
        Some(v) => seq![1u8] + u64_bytes(v),
        None => seq![0u8],
    }
}

/// The number or none that stands at a position, and the position after it.
pub open spec fn parse_option(bytes: Seq<u8>, at: int) -> Option<(Option<u64>, int)> {
    if 0 <= at < bytes.len() {
        if bytes[at] == 0 {
            Some((None, at + 1))
        } else if bytes[at] == 1 {
            match parse_u64(bytes, at + 1) {
                Some((v, next)) => Some((Some(v), next)),
                None => None,
            }
        } else {
            None
        }
    } else {
        None
    }
}

/// Where one byte stands, it is the byte at that position.
pub proof fn lemma_holds_byte(bytes: Seq<u8>, at: int, b: u8)
    requires
        holds(bytes, at, seq![b]),
    ensures
        0 <= at < bytes.len(),
        bytes[at] == b,
{
    assert(bytes.subrange(at, at + 1)[0] == b);
}

/// Where a number or none was written, it is read.
pub proof fn lemma_parse_option(bytes: Seq<u8>, at: int, o: Option<u64>)
    requires
        holds(bytes, at, option_bytes(o)),
    ensures
        parse_option(bytes, at) == Some((o, at + option_bytes(o).len())),
{
    match o {
        Some(v) => {
            lemma_holds_both(bytes, at, seq![1u8], u64_bytes(v));
            lemma_holds_byte(bytes, at, 1u8);
            lemma_parse_u64(bytes, at + 1, v);
            lemma_u64_bytes_len(v);
        },
        None => {
            lemma_holds_byte(bytes, at, 0u8);
        },
    }
}

/// A sequence of bytes as bytes: its length, then the bytes.
pub open spec fn blob_bytes(b: Seq<u8>) -> Seq<u8> {
    u64_bytes(b.len() as u64) + b
}

/// The sequence of bytes that stands at a position, and the position after
/// it.
pub open spec fn parse_blob(bytes: Seq<u8>, at: int) -> Option<(Seq<u8>, int)> {
    match parse_u64(bytes, at) {
        Some((len, next)) => if next + len <= bytes.len() {
            Some((bytes.subrange(next, next + len), next + len))
        } else {
            None
        },
        None => None,
    }
}

/// Where a sequence of bytes was written, it is read.
pub proof fn lemma_parse_blob(bytes: Seq<u8>, at: int, b: Seq<u8>)
    requires
        b.len() <= u64::MAX,
        holds(bytes, at, blob_bytes(b)),
    ensures
        parse_blob(bytes, at) == Some((b, at + blob_bytes(b).len())),
{
    lemma_holds_both(bytes, at, u64_bytes(b.len() as u64), b);
    lemma_parse_u64(bytes, at, b.len() as u64);
    lemma_u64_bytes_len(b.len() as u64);
}

/// A text as bytes: its UTF-8 encoding, as a sequence of bytes.
pub open spec fn text_bytes(s: Seq<char>) -> Seq<u8> {
    blob_bytes(encode_utf8(s))
}

/// The text that stands at a position, and the position after it.
pub open spec fn parse_text(bytes: Seq<u8>, at: int) -> Option<(Seq<char>, int)> {
    match parse_blob(bytes, at) {
        Some((b, next)) => if valid_utf8(b) {
            Some((decode_utf8(b), next))
        } else {
            None
        },
        None => None,
    }
}

/// Where a text was written, it is read.
pub proof fn lemma_parse_text(bytes: Seq<u8>, at: int, s: Seq<char>)
    requires
        encode_utf8(s).len() <= u64::MAX,
        holds(bytes, at, text_bytes(s)),
    ensures
        parse_text(bytes, at) == Some((s, at + text_bytes(s).len())),
{
    lemma_parse_blob(bytes, at, encode_utf8(s));
    encode_utf8_valid_utf8(s);
    encode_utf8_decode_utf8(s);
}

/// Numbers as bytes, one after the other.
pub open spec fn ids_body(ids: Seq<u64>) -> Seq<u8>
    decreases ids.len(),
{
    if ids.len() == 0 {
        Seq::empty()
    } else {
        ids_body(ids.drop_last()) + u64_bytes(ids.last())
    }
}

/// A sequence of numbers as bytes: its length, then the numbers.
pub open spec fn ids_bytes(ids: Seq<u64>) -> Seq<u8> {
    u64_bytes(ids.len() as u64) + ids_body(ids)
}

/// The `count` numbers that stand from a position on, and the position
/// after them.
pub open spec fn parse_ids_body(bytes: Seq<u8>, at: int, count: nat) -> Option<(Seq<u64>, int)>
    decreases count,
{
    if count == 0 {
        Some((Seq::empty(), at))
    } else {
        match parse_ids_body(bytes, at, (count - 1) as nat) {
            Some((ids, next)) => match parse_u64(bytes, next) {
                Some((v, after)) => Some((ids.push(v), after)),
                None => None,
            },
            None => None,
        }
    }
}

/// The sequence of numbers that stands at a position, and the position
/// after it.
pub open spec fn parse_ids(bytes: Seq<u8>, at: int) -> Option<(Seq<u64>, int)> {
    match parse_u64(bytes, at) {
        Some((count, next)) => parse_ids_body(bytes, next, count as nat),
        None => None,
    }
}

/// Each number takes eight bytes.
pub proof fn lemma_ids_body_len(ids: Seq<u64>)
    ensures
        ids_body(ids).len() == 8 * ids.len(),
    decreases ids.len(),
{
    if ids.len() > 0 {
        lemma_ids_body_len(ids.drop_last());
        lemma_u64_bytes_len(ids.last());
    }
}

/// Where numbers were written one after the other, they are read.
pub proof fn lemma_parse_ids_body(bytes: Seq<u8>, at: int, ids: Seq<u64>)
    requires
        holds(bytes, at, ids_body(ids)),
    ensures
        parse_ids_body(bytes, at, ids.len()) == Some((ids, at + 8 * ids.len())),
    decreases ids.len(),
{
    if ids.len() == 0 {
        assert(ids =~= Seq::<u64>::empty());
    } else {
        let front = ids.drop_last();
        lemma_holds_both(bytes, at, ids_body(front), u64_bytes(ids.last()));
        lemma_ids_body_len(front);
        lemma_parse_ids_body(bytes, at, front);
        lemma_parse_u64(bytes, at + 8 * front.len(), ids.last());
        assert(front.push(ids.last()) =~= ids);
    }
}

/// Where `count` numbers can be read, fewer can be read.
pub proof fn lemma_parse_ids_fewer(bytes: Seq<u8>, at: int, count: nat, fewer: nat)
    requires
        fewer <= count,
        parse_ids_body(bytes, at, count) is Some,
    ensures
        parse_ids_body(bytes, at, fewer) is Some,
    decreases count,
{
    if fewer < count {
        lemma_parse_ids_fewer(bytes, at, (count - 1) as nat, fewer);
    }
}

/// Where a sequence of numbers was written, it is read.
pub proof fn lemma_parse_ids(bytes: Seq<u8>, at: int, ids: Seq<u64>)
    requires
        ids.len() <= u64::MAX,
        holds(bytes, at, ids_bytes(ids)),
    ensures
        parse_ids(bytes, at) == Some((ids, at + ids_bytes(ids).len())),
{
    lemma_holds_both(bytes, at, u64_bytes(ids.len() as u64), ids_body(ids));
    lemma_parse_u64(bytes, at, ids.len() as u64);
    lemma_u64_bytes_len(ids.len() as u64);
    lemma_parse_ids_body(bytes, at + 8, ids);
    lemma_ids_body_len(ids);
}

/// Writes a number.
pub fn put_u64(out: &mut Vec<u8>, v: u64)
    ensures
        final(out)@ == old(out)@ + u64_bytes(v),
{
    let mut b = u64_to_le_bytes(v);
    out.append(&mut b);
}

/// Reads the number at a position.
pub fn get_u64(bytes: &Vec<u8>, at: usize) -> (r: Option<(u64, usize)>)
    ensures
        match r {
            Some((v, next)) => parse_u64(bytes@, at as int) == Some((v, next as int)),
            None => parse_u64(bytes@, at as int) is None,
        },
{
    if at > bytes.len() || bytes.len() - at < 8 {
        return None;
    }
    let part = slice_subrange(bytes.as_slice(), at, at + 8);
    Some((u64_from_le_bytes(part), at + 8))
}

/// Writes a number or none.
pub fn put_option(out: &mut Vec<u8>, o: Option<u64>)
    ensures
        final(out)@ == old(out)@ + option_bytes(o),
{
    match o {
        Some(v) => {
            out.push(1u8);
            put_u64(out, v);
            assert(final(out)@ =~= old(out)@ + option_bytes(o));
        },
        None => {
            out.push(0u8);
            assert(final(out)@ =~= old(out)@ + option_bytes(o));
        },
    }
}

/// Reads the number or none at a position.
pub fn get_option(bytes: &Vec<u8>, at: usize) -> (r: Option<(Option<u64>, usize)>)
    ensures
        match r {
            Some((o, next)) => parse_option(bytes@, at as int) == Some((o, next as int)),
            None => parse_option(bytes@, at as int) is None,
        },
{
    if at >= bytes.len() {
        return None;
    }
    let tag = bytes[at];
    if tag == 0 {
        Some((None, at + 1))
    } else if tag == 1 {
        match get_u64(bytes, at + 1) {
            Some((v, next)) => Some((Some(v), next)),
            None => None,
        }
    } else {
        None
    }
}

/// Writes a sequence of bytes.
pub fn put_blob(out: &mut Vec<u8>, b: &Vec<u8>)
    ensures
        final(out)@ == old(out)@ + blob_bytes(b@),
        b@.len() <= u64::MAX,
{
    put_u64(out, b.len() as u64);
    let mut copy = clone_bytes(b);
    out.append(&mut copy);
    assert(final(out)@ =~= old(out)@ + blob_bytes(b@));
}

/// Reads the sequence of bytes at a position.
pub fn get_blob(bytes: &Vec<u8>, at: usize) -> (r: Option<(Vec<u8>, usize)>)
    ensures
        match r {
            Some((b, next)) => parse_blob(bytes@, at as int) == Some((b@, next as int)),
            None => parse_blob(bytes@, at as int) is None,
        },
{
    match get_u64(bytes, at) {
        Some((len, next)) => {
            if len > (bytes.len() - next) as u64 {
                return None;
            }
            let end = next + len as usize;
            let part = slice_subrange(bytes.as_slice(), next, end);
            Some((slice_to_vec(part), end))
        },
        None => None,
    }
}

/// The text that valid UTF-8 spells. Calls `String::from_utf8`, which
/// gives the text of bytes that are valid UTF-8 and refuses any others.
#[verifier::external_body]
fn text_of(bytes: Vec<u8>) -> (r: Option<String>)
    ensures
        match r {
            Some(s) => valid_utf8(bytes@) && s@ == decode_utf8(bytes@),
            None => !valid_utf8(bytes@),
        },
{
    match String::from_utf8(bytes) {
        Ok(s) => Some(s),
        Err(_) => None,
    }
}

/// Writes a text.
pub fn put_text(out: &mut Vec<u8>, s: &String)
    ensures
        final(out)@ == old(out)@ + text_bytes(s@),
        encode_utf8(s@).len() <= u64::MAX,
{
    let encoded = slice_to_vec(s.as_str().as_bytes());
    put_blob(out, &encoded);
}

/// Reads the text at a position.
pub fn get_text(bytes: &Vec<u8>, at: usize) -> (r: Option<(String, usize)>)
    ensures
        match r {
            Some((s, next)) => parse_text(bytes@, at as int) == Some((s@, next as int)),
            None => parse_text(bytes@, at as int) is None,
        },
{
    match get_blob(bytes, at) {
        Some((b, next)) => match text_of(b) {
            Some(s) => Some((s, next)),
            None => None,
        },
        None => None,
    }
}

/// Writes a sequence of numbers.
pub fn put_ids(out: &mut Vec<u8>, ids: &Vec<u64>)
    ensures
        final(out)@ == old(out)@ + ids_bytes(ids@),
        ids@.len() <= u64::MAX,
{
    put_u64(out, ids.len() as u64);
    let mut i: usize = 0;
    assert(ids@.take(0) =~= Seq::<u64>::empty());
    assert(out@ =~= old(out)@ + u64_bytes(ids@.len() as u64) + ids_body(ids@.take(0)));
    while i < ids.len()
        invariant
            0 <= i <= ids.len(),
            out@ == old(out)@ + u64_bytes(ids@.len() as u64) + ids_body(ids@.take(i as int)),
        decreases ids.len() - i,
    {
        put_u64(out, ids[i]);
        proof {
            let now = ids@.take(i + 1);
            assert(now.drop_last() =~= ids@.take(i as int));
            assert(now.last() == ids@[i as int]);
            assert(out@ =~= old(out)@ + u64_bytes(ids@.len() as u64) + ids_body(now));
        }
        i += 1;
    }
    proof {
        assert(ids@.take(ids@.len() as int) =~= ids@);
        assert(out@ =~= old(out)@ + ids_bytes(ids@));
    }
}

/// Reads the sequence of numbers at a position.
pub fn get_ids(bytes: &Vec<u8>, at: usize) -> (r: Option<(Vec<u64>, usize)>)
    ensures
        match r {
            Some((ids, next)) => parse_ids(bytes@, at as int) == Some((ids@, next as int)),
            None => parse_ids(bytes@, at as int) is None,
        },
{
    let found = get_u64(bytes, at);
    if found.is_none() {
        return None;
    }
    let (count, start) = found.unwrap();
    assert(parse_u64(bytes@, at as int) == Some((count, start as int)));
    let mut ids: Vec<u64> = Vec::new();
    let mut pos: usize = start;
    let mut i: u64 = 0;
    assert(ids@ =~= Seq::<u64>::empty());
    while i < count
        invariant
            0 <= i <= count,
            parse_u64(bytes@, at as int) == Some((count, start as int)),
            parse_ids_body(bytes@, start as int, i as nat) == Some((ids@, pos as int)),
        decreases count - i,
    {
        match get_u64(bytes, pos) {
            Some((v, next)) => {
                ids.push(v);
                pos = next;
            },
            None => {
                proof {
                    assert(parse_ids_body(bytes@, start as int, (i + 1) as nat) is None);
                    if parse_ids_body(bytes@, start as int, count as nat) is Some {
                        lemma_parse_ids_fewer(
                            bytes@,
                            start as int,
                            count as nat,
                            (i + 1) as nat,
                        );
                    }
                }
                return None;
            },
        }
        i += 1;
    }
    Some((ids, pos))
}

/// The hard state as bytes: the term, then the vote.
pub open spec fn hard_state_bytes(hs: HardState) -> Seq<u8> {
    u64_bytes(hs.current_term) + option_bytes(hs.voted_for)
}

/// The hard state that the bytes spell, if they spell one and nothing more.
pub open spec fn parse_hard_state(bytes: Seq<u8>) -> Option<HardState> {
    match parse_u64(bytes, 0) {
        Some((current_term, next)) => match parse_option(bytes, next) {
            Some((voted_for, end)) => if end == bytes.len() {
                Some(HardState { current_term, voted_for })
            } else {
                None
            },
            None => None,
        },
        None => None,
    }
}

/// A hard state that was written is read back as it was.
pub proof fn lemma_hard_state_round_trip(hs: HardState)
    ensures
        parse_hard_state(hard_state_bytes(hs)) == Some(hs),
{
    let bytes = hard_state_bytes(hs);
    lemma_holds_itself(bytes);
    lemma_holds_both(bytes, 0, u64_bytes(hs.current_term), option_bytes(hs.voted_for));
    lemma_u64_bytes_len(hs.current_term);
    lemma_parse_u64(bytes, 0, hs.current_term);
    lemma_parse_option(bytes, 8, hs.voted_for);
}

/// The hard state as bytes.
pub fn encode_hard_state(hs: HardState) -> (out: Vec<u8>)
    ensures
        out@ == hard_state_bytes(hs),
        parse_hard_state(out@) == Some(hs),
{
    let mut out: Vec<u8> = Vec::new();
    put_u64(&mut out, hs.current_term);
    put_option(&mut out, hs.voted_for);
    proof {
        assert(out@ =~= hard_state_bytes(hs));
        lemma_hard_state_round_trip(hs);
    }
    out
}

/// The hard state that the bytes spell, if they spell one and nothing more.
pub fn decode_hard_state(bytes: &Vec<u8>) -> (r: Option<HardState>)
    ensures
        r == parse_hard_state(bytes@),
{
    match get_u64(bytes, 0) {
        Some((current_term, next)) => match get_option(bytes, next) {
            Some((voted_for, end)) => {
                if end == bytes.len() {
                    Some(HardState { current_term, voted_for })
                } else {
                    None
                }
            },
            None => None,
        },
        None => None,
    }
}

/// A membership as bytes: the members, then the byte 0, or the byte 1 and
/// the members after the change.
pub open spec fn membership_bytes(m: MembershipModel) -> Seq<u8> {
    ids_bytes(m.members) + match m.members_after_change {
        Some(after) => seq![1u8] + ids_bytes(after),
        None => seq![0u8],
    }
}

/// The membership of the two sets, if neither names a node twice.
pub open spec fn checked_membership(
    members: Seq<u64>,
    members_after_change: Option<Seq<u64>>,
    next: int,
) -> Option<(MembershipModel, int)> {
    let m = MembershipModel { members, members_after_change };
    if m.wf() {
        Some((m, next))
    } else {
        None
    }
}

/// The membership that stands at a position, and the position after it.
pub open spec fn parse_membership(bytes: Seq<u8>, at: int) -> Option<(MembershipModel, int)> {
    match parse_ids(bytes, at) {
        Some((members, next)) => if !(0 <= next < bytes.len()) {
            None
        } else if bytes[next] == 0 {
            checked_membership(members, None, next + 1)
        } else if bytes[next] == 1 {
            match parse_ids(bytes, next + 1) {
                Some((after, end)) => checked_membership(members, Some(after), end),
                None => None,
            }
        } else {
            None
        },
        None => None,
    }
}

/// Whether the membership can be written: it names no node twice in
/// either set, and the length of each set can be written as a number.
pub open spec fn membership_fits(m: MembershipModel) -> bool {
    &&& m.wf()
    &&& m.members.len() <= u64::MAX
    &&& m.members_after_change matches Some(after) ==> after.len() <= u64::MAX
}

/// Where a membership was written, it is read.
pub proof fn lemma_parse_membership(bytes: Seq<u8>, at: int, m: MembershipModel)
    requires
        membership_fits(m),
        holds(bytes, at, membership_bytes(m)),
    ensures
        parse_membership(bytes, at) == Some((m, at + membership_bytes(m).len())),
{
    let head = ids_bytes(m.members);
    match m.members_after_change {
        Some(after) => {
            lemma_holds_both(bytes, at, head, seq![1u8] + ids_bytes(after));
            lemma_parse_ids(bytes, at, m.members);
            lemma_holds_both(bytes, at + head.len(), seq![1u8], ids_bytes(after));
            lemma_holds_byte(bytes, at + head.len(), 1u8);
            lemma_parse_ids(bytes, at + head.len() + 1, after);
        },
        None => {
            lemma_holds_both(bytes, at, head, seq![0u8]);
            lemma_parse_ids(bytes, at, m.members);
            lemma_holds_byte(bytes, at + head.len(), 0u8);
        },
    }
}

/// A write as bytes: the byte that names its kind, then what it holds.
pub open spec fn op_bytes(op: WriteOpModel) -> Seq<u8> {
    match op {
        WriteOpModel::Put { key, value, expire_at } => seq![0u8] + text_bytes(key) + blob_bytes(
            value,
        ) + option_bytes(expire_at),
        WriteOpModel::CompareAndSwap { key, expected_version, value } => seq![1u8] + text_bytes(
            key,
        ) + u64_bytes(expected_version) + blob_bytes(value),
        WriteOpModel::Delete { key } => seq![2u8] + text_bytes(key),
    }
}

/// The write to set a key that stands at a position, after the byte that
/// names its kind.
pub open spec fn parse_put(bytes: Seq<u8>, at: int) -> Option<(WriteOpModel, int)> {
    match parse_text(bytes, at) {
        Some((key, a)) => match parse_blob(bytes, a) {
            Some((value, b)) => match parse_option(bytes, b) {
                Some((expire_at, c)) => Some((WriteOpModel::Put { key, value, expire_at }, c)),
                None => None,
            },
            None => None,
        },
        None => None,
    }
}

/// The write to compare and swap that stands at a position, after the byte
/// that names its kind.
pub open spec fn parse_swap(bytes: Seq<u8>, at: int) -> Option<(WriteOpModel, int)> {
    match parse_text(bytes, at) {
        Some((key, a)) => match parse_u64(bytes, a) {
            Some((expected_version, b)) => match parse_blob(bytes, b) {
                Some((value, c)) => Some(
                    (WriteOpModel::CompareAndSwap { key, expected_version, value }, c),
                ),
                None => None,
            },
            None => None,
        },
        None => None,
    }
}

/// The write that stands at a position, and the position after it.
pub open spec fn parse_op(bytes: Seq<u8>, at: int) -> Option<(WriteOpModel, int)> {
    if !(0 <= at < bytes.len()) {
        None
    } else if bytes[at] == 0 {
        parse_put(bytes, at + 1)
    } else if bytes[at] == 1 {
        parse_swap(bytes, at + 1)
    } else if bytes[at] == 2 {
        match parse_text(bytes, at + 1) {
            Some((key, next)) => Some((WriteOpModel::Delete { key }, next)),
            None => None,
        }
    } else {
        None
    }
}

/// Whether the write can be written: the lengths of its key, as UTF-8,
/// and of its value can be written as numbers.
pub open spec fn op_fits(op: WriteOpModel) -> bool {
    &&& encode_utf8(op.key()).len() <= u64::MAX
    &&& match op {
        WriteOpModel::Put { value, .. } => value.len() <= u64::MAX,
        WriteOpModel::CompareAndSwap { value, .. } => value.len() <= u64::MAX,
        WriteOpModel::Delete { .. } => true,
    }
}

/// Where a write was written, it is read.
pub proof fn lemma_parse_op(bytes: Seq<u8>, at: int, op: WriteOpModel)
    requires
        op_fits(op),
        holds(bytes, at, op_bytes(op)),
    ensures
        parse_op(bytes, at) == Some((op, at + op_bytes(op).len())),
{
    match op {
        WriteOpModel::Put { key, value, expire_at } => {
            let k = text_bytes(key);
            let v = blob_bytes(value);
            lemma_holds_both(bytes, at, seq![0u8] + k + v, option_bytes(expire_at));
            lemma_holds_both(bytes, at, seq![0u8] + k, v);
            lemma_holds_both(bytes, at, seq![0u8], k);
            lemma_holds_byte(bytes, at, 0u8);
            lemma_parse_text(bytes, at + 1, key);
            lemma_parse_blob(bytes, at + 1 + k.len(), value);
            lemma_parse_option(bytes, at + 1 + k.len() + v.len(), expire_at);
        },
        WriteOpModel::CompareAndSwap { key, expected_version, value } => {
            let k = text_bytes(key);
            let e = u64_bytes(expected_version);
            lemma_holds_both(bytes, at, seq![1u8] + k + e, blob_bytes(value));
            lemma_holds_both(bytes, at, seq![1u8] + k, e);
            lemma_holds_both(bytes, at, seq![1u8], k);
            lemma_holds_byte(bytes, at, 1u8);
            lemma_u64_bytes_len(expected_version);
            lemma_parse_text(bytes, at + 1, key);
            lemma_parse_u64(bytes, at + 1 + k.len(), expected_version);
            lemma_parse_blob(bytes, at + 1 + k.len() + 8, value);
        },
        WriteOpModel::Delete { key } => {
            lemma_holds_both(bytes, at, seq![2u8], text_bytes(key));
            lemma_holds_byte(bytes, at, 2u8);
            lemma_parse_text(bytes, at + 1, key);
        },
    }
}

/// What an entry carries as bytes: the byte that names its kind, then what
/// it holds.
pub open spec fn payload_bytes(p: PayloadModel) -> Seq<u8> {
    match p {
        PayloadModel::NoOp => seq![0u8],
        PayloadModel::ClientWrite { op, time } => seq![1u8] + u64_bytes(time) + op_bytes(op),
        PayloadModel::ConfigChange(m) => seq![2u8] + membership_bytes(m),
    }
}

/// What an entry carries, as it stands at a position, and the position
/// after it.
pub open spec fn parse_payload(bytes: Seq<u8>, at: int) -> Option<(PayloadModel, int)> {
    if !(0 <= at < bytes.len()) {
        None
    } else if bytes[at] == 0 {
        Some((PayloadModel::NoOp, at + 1))
    } else if bytes[at] == 1 {
        match parse_u64(bytes, at + 1) {
            Some((time, a)) => match parse_op(bytes, a) {
                Some((op, next)) => Some((PayloadModel::ClientWrite { op, time }, next)),
                None => None,
            },
            None => None,
        }
    } else if bytes[at] == 2 {
        match parse_membership(bytes, at + 1) {
            Some((m, next)) => Some((PayloadModel::ConfigChange(m), next)),
            None => None,
        }
    } else {
        None
    }
}

/// Whether what an entry carries can be written.
pub open spec fn payload_fits(p: PayloadModel) -> bool {
    match p {
        PayloadModel::NoOp => true,
        PayloadModel::ClientWrite { op, .. } => op_fits(op),
        PayloadModel::ConfigChange(m) => membership_fits(m),
    }
}

/// Where what an entry carries was written, it is read.
pub proof fn lemma_parse_payload(bytes: Seq<u8>, at: int, p: PayloadModel)
    requires
        payload_fits(p),
        holds(bytes, at, payload_bytes(p)),
    ensures
        parse_payload(bytes, at) == Some((p, at + payload_bytes(p).len())),
{
    match p {
        PayloadModel::NoOp => {
            lemma_holds_byte(bytes, at, 0u8);
        },
        PayloadModel::ClientWrite { op, time } => {
            lemma_holds_both(bytes, at, seq![1u8] + u64_bytes(time), op_bytes(op));
            lemma_holds_both(bytes, at, seq![1u8], u64_bytes(time));
            lemma_holds_byte(bytes, at, 1u8);
            lemma_u64_bytes_len(time);
            lemma_parse_u64(bytes, at + 1, time);
            lemma_parse_op(bytes, at + 9, op);
        },
        PayloadModel::ConfigChange(m) => {
            lemma_holds_both(bytes, at, seq![2u8], membership_bytes(m));
            lemma_holds_byte(bytes, at, 2u8);
            lemma_parse_membership(bytes, at + 1, m);
        },
    }
}

/// An entry as bytes: its index, its term, and what it carries.
pub open spec fn entry_bytes(e: EntryModel) -> Seq<u8> {
    u64_bytes(e.index) + u64_bytes(e.term) + payload_bytes(e.payload)
}

/// The entry that stands at a position, and the position after it.
pub open spec fn parse_entry(bytes: Seq<u8>, at: int) -> Option<(EntryModel, int)> {
    match parse_u64(bytes, at) {
        Some((index, a)) => match parse_u64(bytes, a) {
            Some((term, b)) => match parse_payload(bytes, b) {
                Some((payload, next)) => Some((EntryModel { index, term, payload }, next)),
                None => None,
            },
            None => None,
        },
        None => None,
    }
}

/// Where an entry was written, it is read.
pub proof fn lemma_parse_entry(bytes: Seq<u8>, at: int, e: EntryModel)
    requires
        payload_fits(e.payload),
        holds(bytes, at, entry_bytes(e)),
    ensures
        parse_entry(bytes, at) == Some((e, at + entry_bytes(e).len())),
{
    lemma_holds_both(bytes, at, u64_bytes(e.index) + u64_bytes(e.term), payload_bytes(e.payload));
    lemma_holds_both(bytes, at, u64_bytes(e.index), u64_bytes(e.term));
    lemma_u64_bytes_len(e.index);
    lemma_u64_bytes_len(e.term);
    lemma_parse_u64(bytes, at, e.index);
    lemma_parse_u64(bytes, at + 8, e.term);
    lemma_parse_payload(bytes, at + 16, e.payload);
}

/// Writes a membership.
pub fn put_membership(out: &mut Vec<u8>, m: &Membership)
    ensures
        final(out)@ == old(out)@ + membership_bytes(m@),
        membership_fits(m@),
{
    m.check();
    put_ids(out, m.members());
    match m.members_after_change() {
        Some(after) => {
            out.push(1u8);
            put_ids(out, after);
        },
        None => {
            out.push(0u8);
        },
    }
    assert(final(out)@ =~= old(out)@ + membership_bytes(m@));
}

/// Reads the membership at a position.
pub fn get_membership(bytes: &Vec<u8>, at: usize) -> (r: Option<(Membership, usize)>)
    ensures
        match r {
            Some((m, next)) => parse_membership(bytes@, at as int) == Some((m@, next as int)),
            None => parse_membership(bytes@, at as int) is None,
        },
{
    let found = get_ids(bytes, at);
    if found.is_none() {
        return None;
    }
    let (members, next) = found.unwrap();
    if next >= bytes.len() {
        return None;
    }
    let tag = bytes[next];
    if tag == 0 {
        match Membership::from_parts(members, None) {
            Some(m) => Some((m, next + 1)),
            None => None,
        }
    } else if tag == 1 {
        let found = get_ids(bytes, next + 1);
        if found.is_none() {
            return None;
        }
        let (after, end) = found.unwrap();
        match Membership::from_parts(members, Some(after)) {
            Some(m) => Some((m, end)),
            None => None,
        }
    } else {
        None
    }
}

/// Writes a write.
pub fn put_op(out: &mut Vec<u8>, op: &WriteOp)
    ensures
        final(out)@ == old(out)@ + op_bytes(op@),
        op_fits(op@),
{
    match op {
        WriteOp::Put { key, value, expire_at } => {
            out.push(0u8);
            put_text(out, key);
            put_blob(out, value);
            put_option(out, *expire_at);
        },
        WriteOp::CompareAndSwap { key, expected_version, value } => {
            out.push(1u8);
            put_text(out, key);
            put_u64(out, *expected_version);
            put_blob(out, value);
        },
        WriteOp::Delete { key } => {
            out.push(2u8);
            put_text(out, key);
        },
    }
    assert(final(out)@ =~= old(out)@ + op_bytes(op@));
}

/// Reads the write at a position.
pub fn get_op(bytes: &Vec<u8>, at: usize) -> (r: Option<(WriteOp, usize)>)
    ensures
        match r {
            Some((op, next)) => parse_op(bytes@, at as int) == Some((op@, next as int)),
            None => parse_op(bytes@, at as int) is None,
        },
{
    if at >= bytes.len() {
        return None;
    }
    let tag = bytes[at];
    if tag > 2 {
        return None;
    }
    let found = get_text(bytes, at + 1);
    if found.is_none() {
        return None;
    }
    let (key, a) = found.unwrap();
    if tag == 0 {
        let found = get_blob(bytes, a);
        if found.is_none() {
            return None;
        }
        let (value, b) = found.unwrap();
        match get_option(bytes, b) {
            Some((expire_at, c)) => Some((WriteOp::Put { key, value, expire_at }, c)),
            None => None,
        }
    } else if tag == 1 {
        let found = get_u64(bytes, a);
        if found.is_none() {
            return None;
        }
        let (expected_version, b) = found.unwrap();
        match get_blob(bytes, b) {
            Some((value, c)) => Some((WriteOp::CompareAndSwap { key, expected_version, value }, c)),
            None => None,
        }
    } else {
        Some((WriteOp::Delete { key }, a))
    }
}

/// Writes what an entry carries.
pub fn put_payload(out: &mut Vec<u8>, p: &Payload)
    ensures
        final(out)@ == old(out)@ + payload_bytes(p@),
        payload_fits(p@),
{
    match p {
        Payload::NoOp => {
            out.push(0u8);
        },
        Payload::ClientWrite { op, time } => {
            out.push(1u8);
            put_u64(out, *time);
            put_op(out, op);
        },
        Payload::ConfigChange(m) => {
            out.push(2u8);
            put_membership(out, m);
        },
    }
    assert(final(out)@ =~= old(out)@ + payload_bytes(p@));
}

/// Reads what an entry carries at a position.
pub fn get_payload(bytes: &Vec<u8>, at: usize) -> (r: Option<(Payload, usize)>)
    ensures
        match r {
            Some((p, next)) => parse_payload(bytes@, at as int) == Some((p@, next as int)),
            None => parse_payload(bytes@, at as int) is None,
        },
{
    if at >= bytes.len() {
        return None;
    }
    let tag = bytes[at];
    if tag == 0 {
        Some((Payload::NoOp, at + 1))
    } else if tag == 1 {
        let found = get_u64(bytes, at + 1);
        if found.is_none() {
            return None;
        }
        let (time, a) = found.unwrap();
        match get_op(bytes, a) {
            Some((op, next)) => Some((Payload::ClientWrite { op, time }, next)),
            None => None,
        }
    } else if tag == 2 {
        match get_membership(bytes, at + 1) {
            Some((m, next)) => Some((Payload::ConfigChange(m), next)),
            None => None,
        }
    } else {
        None
    }
}

/// Writes an entry.
pub fn put_entry(out: &mut Vec<u8>, e: &LogEntry)
    ensures
        final(out)@ == old(out)@ + entry_bytes(e@),
        payload_fits(e@.payload),
{
    put_u64(out, e.index);
    put_u64(out, e.term);
    put_payload(out, &e.payload);
    assert(final(out)@ =~= old(out)@ + entry_bytes(e@));
}

/// Reads the entry at a position.
pub fn get_entry(bytes: &Vec<u8>, at: usize) -> (r: Option<(LogEntry, usize)>)
    ensures
        match r {
            Some((e, next)) => parse_entry(bytes@, at as int) == Some((e@, next as int)),
            None => parse_entry(bytes@, at as int) is None,
        },
{
    let found = get_u64(bytes, at);
    if found.is_none() {
        return None;
    }
    let (index, a) = found.unwrap();
    let found = get_u64(bytes, a);
    if found.is_none() {
        return None;
    }
    let (term, b) = found.unwrap();
    match get_payload(bytes, b) {
        Some((payload, next)) => Some((LogEntry { index, term, payload }, next)),
        None => None,
    }
}

/// Entries as bytes, one after the other.
pub open spec fn entries_bytes(entries: Seq<EntryModel>) -> Seq<u8>
    decreases entries.len(),
{
    if entries.len() == 0 {
        Seq::empty()
    } else {
        entries_bytes(entries.drop_last()) + entry_bytes(entries.last())
    }
}

/// The `count` entries that stand from a position on, and the position
/// after them.
pub open spec fn parse_entries(bytes: Seq<u8>, at: int, count: nat) -> Option<
    (Seq<EntryModel>, int),
>
    decreases count,
{
    if count == 0 {
        Some((Seq::empty(), at))
    } else {
        match parse_entries(bytes, at, (count - 1) as nat) {
            Some((entries, next)) => match parse_entry(bytes, next) {
                Some((e, after)) => Some((entries.push(e), after)),
                None => None,
            },
            None => None,
        }
    }
}

/// Whether each of the entries can be written.
pub open spec fn entries_fit(entries: Seq<EntryModel>) -> bool {
    forall|k: int| 0 <= k < entries.len() ==> payload_fits(#[trigger] entries[k].payload)
}

/// Where entries were written one after the other, they are read.
pub proof fn lemma_parse_entries(bytes: Seq<u8>, at: int, entries: Seq<EntryModel>)
    requires
        entries_fit(entries),
        holds(bytes, at, entries_bytes(entries)),
    ensures
        parse_entries(bytes, at, entries.len()) == Some(
            (entries, at + entries_bytes(entries).len()),
        ),
    decreases entries.len(),
{
    if entries.len() == 0 {
        assert(entries =~= Seq::<EntryModel>::empty());
    } else {
        let front = entries.drop_last();
        assert(entries_fit(front)) by {
            assert forall|k: int| 0 <= k < front.len() implies payload_fits(
                #[trigger] front[k].payload,
            ) by {
                assert(front[k] == entries[k]);
            }
        }
        lemma_holds_both(bytes, at, entries_bytes(front), entry_bytes(entries.last()));
        lemma_parse_entries(bytes, at, front);
        lemma_parse_entry(bytes, at + entries_bytes(front).len(), entries.last());
        assert(front.push(entries.last()) =~= entries);
    }
}

/// Where `count` entries can be read, fewer can be read.
pub proof fn lemma_parse_entries_fewer(bytes: Seq<u8>, at: int, count: nat, fewer: nat)
    requires
        fewer <= count,
        parse_entries(bytes, at, count) is Some,
    ensures
        parse_entries(bytes, at, fewer) is Some,
    decreases count,
{
    if fewer < count {
        lemma_parse_entries_fewer(bytes, at, (count - 1) as nat, fewer);
    }
}

/// A log as bytes: the index and the term of its base, the number of its
/// entries, and the entries.
pub open spec fn log_bytes(log: LogModel) -> Seq<u8> {
    u64_bytes(log.base_index) + u64_bytes(log.base_term) + u64_bytes(log.entries.len() as u64)
        + entries_bytes(log.entries)
}

/// The log of the parts that were read, if they were followed by nothing
/// more and the indexes of the entries run on from the base without a gap.
pub open spec fn checked_log(
    base_index: u64,
    base_term: u64,
    entries: Seq<EntryModel>,
    end: int,
    len: int,
) -> Option<LogModel> {
    let log = LogModel { base_index, base_term, entries };
    if end == len && log.wf() {
        Some(log)
    } else {
        None
    }
}

/// The log that the bytes spell, if they spell one and nothing more.
pub open spec fn parse_log(bytes: Seq<u8>) -> Option<LogModel> {
    match parse_u64(bytes, 0) {
        Some((base_index, a)) => match parse_u64(bytes, a) {
            Some((base_term, b)) => match parse_u64(bytes, b) {
                Some((count, c)) => match parse_entries(bytes, c, count as nat) {
                    Some((entries, end)) => checked_log(
                        base_index,
                        base_term,
                        entries,
                        end,
                        bytes.len() as int,
                    ),
                    None => None,
                },
                None => None,
            },
            None => None,
        },
        None => None,
    }
}

/// A log that was written is read back as it was.
pub proof fn lemma_log_round_trip(log: LogModel)
    requires
        log.wf(),
        entries_fit(log.entries),
    ensures
        parse_log(log_bytes(log)) == Some(log),
{
    let bytes = log_bytes(log);
    let count = log.entries.len() as u64;
    let head = u64_bytes(log.base_index) + u64_bytes(log.base_term) + u64_bytes(count);
    lemma_holds_itself(bytes);
    lemma_holds_both(bytes, 0, head, entries_bytes(log.entries));
    lemma_holds_both(bytes, 0, u64_bytes(log.base_index) + u64_bytes(log.base_term), u64_bytes(count));
    lemma_holds_both(bytes, 0, u64_bytes(log.base_index), u64_bytes(log.base_term));
    lemma_u64_bytes_len(log.base_index);
    lemma_u64_bytes_len(log.base_term);
    lemma_u64_bytes_len(count);
    lemma_parse_u64(bytes, 0, log.base_index);
    lemma_parse_u64(bytes, 8, log.base_term);
    lemma_parse_u64(bytes, 16, count);
    lemma_parse_entries(bytes, 24, log.entries);
}

/// The log of a store as bytes.
pub fn encode_log(store: &LogStore) -> (out: Vec<u8>)
    requires
        store.wf(),
    ensures
        out@ == log_bytes(store@.log),
        parse_log(out@) == Some(store@.log),
{
    let entries = store.entries_after(store.base_index());
    let mut out: Vec<u8> = Vec::new();
    put_u64(&mut out, store.base_index());
    put_u64(&mut out, store.base_term());
    put_u64(&mut out, entries.len() as u64);
    let ghost head = out@;
    let ghost all = entries_model(entries@);
    let mut i: usize = 0;
    proof {
        assert(all =~= store@.log.entries);
        assert(all.take(0) =~= Seq::<EntryModel>::empty());
        assert(out@ =~= head + entries_bytes(all.take(0)));
    }
    while i < entries.len()
        invariant
            0 <= i <= entries.len(),
            all == entries_model(entries@),
            out@ == head + entries_bytes(all.take(i as int)),
            forall|k: int| 0 <= k < i ==> payload_fits(#[trigger] all[k].payload),
        decreases entries.len() - i,
    {
        put_entry(&mut out, &entries[i]);
        proof {
            let now = all.take(i + 1);
            assert(now.drop_last() =~= all.take(i as int));
            assert(now.last() == entries@[i as int]@);
            assert(out@ =~= head + entries_bytes(now));
        }
        i += 1;
    }
    proof {
        assert(all.take(all.len() as int) =~= all);
        assert(out@ =~= log_bytes(store@.log));
        lemma_log_round_trip(store@.log);
    }
    out
}

/// The store with the log that the bytes spell and the hard state of a new
/// node, if the bytes spell a log and nothing more.
pub fn decode_log(bytes: &Vec<u8>) -> (r: Option<LogStore>)
    ensures
        match r {
            Some(store) => {
                &&& store.wf()
                &&& parse_log(bytes@) == Some(store@.log)
                &&& store@.hard_state == (HardState { current_term: 0, voted_for: None })
            },
            None => parse_log(bytes@) is None,
        },
{
    let found = get_u64(bytes, 0);
    if found.is_none() {
        return None;
    }
    let (base_index, a) = found.unwrap();
    let found = get_u64(bytes, a);
    if found.is_none() {
        return None;
    }
    let (base_term, b) = found.unwrap();
    let found = get_u64(bytes, b);
    if found.is_none() {
        return None;
    }
    let (count, start) = found.unwrap();
    let mut entries: Vec<LogEntry> = Vec::new();
    let mut pos: usize = start;
    let mut i: u64 = 0;
    assert(entries_model(entries@) =~= Seq::<EntryModel>::empty());
    while i < count
        invariant
            0 <= i <= count,
            parse_u64(bytes@, 0) == Some((base_index, a as int)),
            parse_u64(bytes@, a as int) == Some((base_term, b as int)),
            parse_u64(bytes@, b as int) == Some((count, start as int)),
            parse_entries(bytes@, start as int, i as nat) == Some(
                (entries_model(entries@), pos as int),
            ),
        decreases count - i,
    {
        match get_entry(bytes, pos) {
            Some((e, next)) => {
                let ghost before = entries@;
                entries.push(e);
                pos = next;
                proof {
                    assert(entries_model(entries@) =~= entries_model(before).push(e@));
                }
            },
            None => {
                proof {
                    assert(parse_entries(bytes@, start as int, (i + 1) as nat) is None);
                    if parse_entries(bytes@, start as int, count as nat) is Some {
                        lemma_parse_entries_fewer(
                            bytes@,
                            start as int,
                            count as nat,
                            (i + 1) as nat,
                        );
                    }
                }
                return None;
            },
        }
        i += 1;
    }
    if pos != bytes.len() {
        return None;
    }
    let ghost read = entries_model(entries@);
    let mut store = LogStore::new();
    store.reset(base_index, base_term);
    match store.append(entries) {
        Ok(()) => {
            proof {
                assert(store@.log =~= (LogModel { base_index, base_term, entries: read }));
                assert(Seq::<EntryModel>::empty() + read =~= read);
            }
            Some(store)
        },
        Err(_) => {
            proof {
                let log = LogModel { base_index, base_term, entries: read };
                if log.wf() {
                    assert((LogModel {
                        base_index,
                        base_term,
                        entries: Seq::empty(),
                    }).continued_by(read));
                }
            }
            None
        },
    }
}

/// A key and its record as bytes: the key, the value, the version, and
/// when the value expires.
pub open spec fn record_bytes(r: (Seq<char>, RecordModel)) -> Seq<u8> {
    text_bytes(r.0) + blob_bytes(r.1.value) + u64_bytes(r.1.version) + option_bytes(r.1.expire_at)
}

/// The key and the record that stand at a position, and the position after
/// them.
pub open spec fn parse_record(bytes: Seq<u8>, at: int) -> Option<((Seq<char>, RecordModel), int)> {
    match parse_text(bytes, at) {
        Some((key, a)) => match parse_blob(bytes, a) {
            Some((value, b)) => match parse_u64(bytes, b) {
                Some((version, c)) => match parse_option(bytes, c) {
                    Some((expire_at, next)) => Some(
                        ((key, RecordModel { value, version, expire_at }), next),
                    ),
                    None => None,
                },
                None => None,
            },
            None => None,
        },
        None => None,
    }
}

/// Whether the key and the record can be written: the lengths of the key,
/// as UTF-8, and of the value can be written as numbers.
pub open spec fn record_fits(r: (Seq<char>, RecordModel)) -> bool {
    encode_utf8(r.0).len() <= u64::MAX && r.1.value.len() <= u64::MAX
}

/// Where a key and its record were written, they are read.
pub proof fn lemma_parse_record(bytes: Seq<u8>, at: int, r: (Seq<char>, RecordModel))
    requires
        record_fits(r),
        holds(bytes, at, record_bytes(r)),
    ensures
        parse_record(bytes, at) == Some((r, at + record_bytes(r).len())),
{
    let k = text_bytes(r.0);
    let v = blob_bytes(r.1.value);
    lemma_holds_both(bytes, at, k + v + u64_bytes(r.1.version), option_bytes(r.1.expire_at));
    lemma_holds_both(bytes, at, k + v, u64_bytes(r.1.version));
    lemma_holds_both(bytes, at, k, v);
    lemma_u64_bytes_len(r.1.version);
    lemma_parse_text(bytes, at, r.0);
    lemma_parse_blob(bytes, at + k.len(), r.1.value);
    lemma_parse_u64(bytes, at + k.len() + v.len(), r.1.version);
    lemma_parse_option(bytes, at + k.len() + v.len() + 8, r.1.expire_at);
}

/// Keys and records as bytes, one after the other.
pub open spec fn records_bytes(records: Seq<(Seq<char>, RecordModel)>) -> Seq<u8>
    decreases records.len(),
{
    if records.len() == 0 {
        Seq::empty()
    } else {
        records_bytes(records.drop_last()) + record_bytes(records.last())
    }
}

/// The `count` keys and records that stand from a position on, and the
/// position after them.
pub open spec fn parse_records(bytes: Seq<u8>, at: int, count: nat) -> Option<
    (Seq<(Seq<char>, RecordModel)>, int),
>
    decreases count,
{
    if count == 0 {
        Some((Seq::empty(), at))
    } else {
        match parse_records(bytes, at, (count - 1) as nat) {
            Some((records, next)) => match parse_record(bytes, next) {
                Some((r, after)) => Some((records.push(r), after)),
                None => None,
            },
            None => None,
        }
    }
}

/// Whether each of the keys and records can be written.
pub open spec fn records_fit(records: Seq<(Seq<char>, RecordModel)>) -> bool {
    forall|k: int| 0 <= k < records.len() ==> record_fits(#[trigger] records[k])
}

/// Where keys and records were written one after the other, they are read.
pub proof fn lemma_parse_records(bytes: Seq<u8>, at: int, records: Seq<(Seq<char>, RecordModel)>)
    requires
        records_fit(records),
        holds(bytes, at, records_bytes(records)),
    ensures
        parse_records(bytes, at, records.len()) == Some(
            (records, at + records_bytes(records).len()),
        ),
    decreases records.len(),
{
    if records.len() == 0 {
        assert(records =~= Seq::<(Seq<char>, RecordModel)>::empty());
    } else {
        let front = records.drop_last();
        assert(records_fit(front)) by {
            assert forall|k: int| 0 <= k < front.len() implies record_fits(
                #[trigger] front[k],
            ) by {
                assert(front[k] == records[k]);
            }
        }
        lemma_holds_both(bytes, at, records_bytes(front), record_bytes(records.last()));
        lemma_parse_records(bytes, at, front);
        lemma_parse_record(bytes, at + records_bytes(front).len(), records.last());
        assert(front.push(records.last()) =~= records);
    }
}

/// Where `count` keys and records can be read, fewer can be read.
pub proof fn lemma_parse_records_fewer(bytes: Seq<u8>, at: int, count: nat, fewer: nat)
    requires
        fewer <= count,
        parse_records(bytes, at, count) is Some,
    ensures
        parse_records(bytes, at, fewer) is Some,
    decreases count,
{
    if fewer < count {
        lemma_parse_records_fewer(bytes, at, (count - 1) as nat, fewer);
    }
}

/// The parts of an image of the state machine, as they are written.
pub struct ImageParts {
    pub last_included_index: u64,
    pub last_included_term: u64,
    pub membership: MembershipModel,
    pub records: Seq<(Seq<char>, RecordModel)>,
}

/// An image as bytes: the index and the term of the last entry that it
/// includes, the membership, the number of its keys, and the keys with
/// their records.
pub open spec fn image_bytes(p: ImageParts) -> Seq<u8> {
    u64_bytes(p.last_included_index) + u64_bytes(p.last_included_term) + membership_bytes(
        p.membership,
    ) + u64_bytes(p.records.len() as u64) + records_bytes(p.records)
}

/// The parts that were read, if they were followed by nothing more.
pub open spec fn checked_image(p: ImageParts, end: int, len: int) -> Option<ImageParts> {
    if end == len {
        Some(p)
    } else {
        None
    }
}

/// The parts of the image that the bytes spell, if they spell one and
/// nothing more.
pub open spec fn parse_image(bytes: Seq<u8>) -> Option<ImageParts> {
    match parse_u64(bytes, 0) {
        Some((last_included_index, a)) => match parse_u64(bytes, a) {
            Some((last_included_term, b)) => match parse_membership(bytes, b) {
                Some((membership, c)) => match parse_u64(bytes, c) {
                    Some((count, d)) => match parse_records(bytes, d, count as nat) {
                        Some((records, end)) => checked_image(
                            ImageParts {
                                last_included_index,
                                last_included_term,
                                membership,
                                records,
                            },
                            end,
                            bytes.len() as int,
                        ),
                        None => None,
                    },
                    None => None,
                },
                None => None,
            },
            None => None,
        },
        None => None,
    }
}

/// Whether the parts can be written.
pub open spec fn image_fits(p: ImageParts) -> bool {
    &&& membership_fits(p.membership)
    &&& p.records.len() <= u64::MAX
    &&& records_fit(p.records)
}

/// The parts of an image that were written are read back as they were.
pub proof fn lemma_image_round_trip(p: ImageParts)
    requires
        image_fits(p),
    ensures
        parse_image(image_bytes(p)) == Some(p),
{
    let bytes = image_bytes(p);
    let i = u64_bytes(p.last_included_index);
    let t = u64_bytes(p.last_included_term);
    let m = membership_bytes(p.membership);
    let n = u64_bytes(p.records.len() as u64);
    lemma_holds_itself(bytes);
    lemma_holds_both(bytes, 0, i + t + m + n, records_bytes(p.records));
    lemma_holds_both(bytes, 0, i + t + m, n);
    lemma_holds_both(bytes, 0, i + t, m);
    lemma_holds_both(bytes, 0, i, t);
    lemma_u64_bytes_len(p.last_included_index);
    lemma_u64_bytes_len(p.last_included_term);
    lemma_u64_bytes_len(p.records.len() as u64);
    lemma_parse_u64(bytes, 0, p.last_included_index);
    lemma_parse_u64(bytes, 8, p.last_included_term);
    lemma_parse_membership(bytes, 16, p.membership);
    lemma_parse_u64(bytes, 16 + m.len() as int, p.records.len() as u64);
    lemma_parse_records(bytes, 16 + m.len() as int + 8, p.records);
}

/// The keys and records of a list, each taken by its contents.
pub open spec fn listing(records: Seq<(String, KvRecord)>) -> Seq<(Seq<char>, RecordModel)> {
    records.map_values(|r: (String, KvRecord)| (r.0@, r.1@))
}

/// Whether the parts make an image: no key comes twice, and every version
/// is at least 1 and at most the index of the image.
pub open spec fn image_valid(p: ImageParts) -> bool {
    &&& forall|a: int, b: int|
        0 <= a < b < p.records.len() ==> (#[trigger] p.records[a]).0 != (#[trigger] p.records[b]).0
    &&& forall|a: int|
        0 <= a < p.records.len() ==> 1 <= (#[trigger] p.records[a]).1.version
            <= p.last_included_index
}

/// The state that the parts of an image make.
pub open spec fn image_state(p: ImageParts) -> StateModel {
    StateModel {
        last_applied: p.last_included_index,
        last_applied_term: p.last_included_term,
        kv: Map::new(
            |k: Seq<char>| exists|i: int| 0 <= i < p.records.len() && p.records[i].0 == k,
            |k: Seq<char>|
                p.records[choose|i: int| 0 <= i < p.records.len() && p.records[i].0 == k].1,
        ),
        membership: p.membership,
    }
}

/// Writes a key and its record.
pub fn put_record(out: &mut Vec<u8>, key: &String, record: &KvRecord)
    ensures
        final(out)@ == old(out)@ + record_bytes((key@, record@)),
        record_fits((key@, record@)),
{
    put_text(out, key);
    put_blob(out, &record.value);
    put_u64(out, record.version);
    put_option(out, record.expire_at);
    assert(final(out)@ =~= old(out)@ + record_bytes((key@, record@)));
}

/// Reads the key and the record at a position.
pub fn get_record(bytes: &Vec<u8>, at: usize) -> (r: Option<((String, KvRecord), usize)>)
    ensures
        match r {
            Some((found, next)) => parse_record(bytes@, at as int) == Some(
                ((found.0@, found.1@), next as int),
            ),
            None => parse_record(bytes@, at as int) is None,
        },
{
    let found = get_text(bytes, at);
    if found.is_none() {
        return None;
    }
    let (key, a) = found.unwrap();
    let found = get_blob(bytes, a);
    if found.is_none() {
        return None;
    }
    let (value, b) = found.unwrap();
    let found = get_u64(bytes, b);
    if found.is_none() {
        return None;
    }
    let (version, c) = found.unwrap();
    match get_option(bytes, c) {
        Some((expire_at, next)) => Some(((key, KvRecord { value, version, expire_at }), next)),
        None => None,
    }
}

/// The parts of an image as bytes.
pub fn encode_image(
    last_included_index: u64,
    last_included_term: u64,
    membership: &Membership,
    records: &Vec<(String, KvRecord)>,
) -> (out: Vec<u8>)
    ensures
        out@ == image_bytes(
            ImageParts {
                last_included_index,
                last_included_term,
                membership: membership@,
                records: listing(records@),
            },
        ),
        parse_image(out@) == Some(
            ImageParts {
                last_included_index,
                last_included_term,
                membership: membership@,
                records: listing(records@),
            },
        ),
{
    let ghost all = listing(records@);
    let ghost p = ImageParts {
        last_included_index,
        last_included_term,
        membership: membership@,
        records: all,
    };
    let mut out: Vec<u8> = Vec::new();
    put_u64(&mut out, last_included_index);
    put_u64(&mut out, last_included_term);
    put_membership(&mut out, membership);
    put_u64(&mut out, records.len() as u64);
    let ghost head = out@;
    let mut i: usize = 0;
    proof {
        assert(all.take(0) =~= Seq::<(Seq<char>, RecordModel)>::empty());
        assert(out@ =~= head + records_bytes(all.take(0)));
    }
    while i < records.len()
        invariant
            0 <= i <= records.len(),
            all == listing(records@),
            out@ == head + records_bytes(all.take(i as int)),
            forall|k: int| 0 <= k < i ==> record_fits(#[trigger] all[k]),
        decreases records.len() - i,
    {
        put_record(&mut out, &records[i].0, &records[i].1);
        proof {
            let now = all.take(i + 1);
            assert(now.drop_last() =~= all.take(i as int));
            assert(now.last() == (records@[i as int].0@, records@[i as int].1@));
            assert(out@ =~= head + records_bytes(now));
        }
        i += 1;
    }
    proof {
        assert(all.take(all.len() as int) =~= all);
        assert(out@ =~= image_bytes(p));
        lemma_image_round_trip(p);
    }
    out
}

/// The parts of the image that the bytes spell, if they spell one and
/// nothing more.
pub fn decode_image(bytes: &Vec<u8>) -> (r: Option<(u64, u64, Membership, Vec<(String, KvRecord)>)>)
    ensures
        match r {
            Some(found) => parse_image(bytes@) == Some(
                ImageParts {
                    last_included_index: found.0,
                    last_included_term: found.1,
                    membership: found.2@,
                    records: listing(found.3@),
                },
            ),
            None => parse_image(bytes@) is None,
        },
{
    let found = get_u64(bytes, 0);
    if found.is_none() {
        return None;
    }
    let (last_included_index, a) = found.unwrap();
    let found = get_u64(bytes, a);
    if found.is_none() {
        return None;
    }
    let (last_included_term, b) = found.unwrap();
    let found = get_membership(bytes, b);
    if found.is_none() {
        return None;
    }
    let (membership, c) = found.unwrap();
    let found = get_u64(bytes, c);
    if found.is_none() {
        return None;
    }
    let (count, start) = found.unwrap();
    let mut records: Vec<(String, KvRecord)> = Vec::new();
    let mut pos: usize = start;
    let mut i: u64 = 0;
    assert(listing(records@) =~= Seq::<(Seq<char>, RecordModel)>::empty());
    while i < count
        invariant
            0 <= i <= count,
            parse_u64(bytes@, 0) == Some((last_included_index, a as int)),
            parse_u64(bytes@, a as int) == Some((last_included_term, b as int)),
            parse_membership(bytes@, b as int) == Some((membership@, c as int)),
            parse_u64(bytes@, c as int) == Some((count, start as int)),
            parse_records(bytes@, start as int, i as nat) == Some((listing(records@), pos as int)),
        decreases count - i,
    {
        match get_record(bytes, pos) {
            Some((found, next)) => {
                let ghost before = records@;
                let ghost r = (found.0@, found.1@);
                records.push(found);
                pos = next;
                proof {
                    assert(listing(records@) =~= listing(before).push(r));
                }
            },
            None => {
                proof {
                    assert(parse_records(bytes@, start as int, (i + 1) as nat) is None);
                    if parse_records(bytes@, start as int, count as nat) is Some {
                        lemma_parse_records_fewer(
                            bytes@,
                            start as int,
                            count as nat,
                            (i + 1) as nat,
                        );
                    }
                }
                return None;
            },
        }
        i += 1;
    }
    if pos != bytes.len() {
        return None;
    }
    Some((last_included_index, last_included_term, membership, records))
}

/// The state of an image is the state that its parts make, however the
/// keys are listed.
pub proof fn lemma_image_state(
    state: StateModel,
    records: Seq<(String, KvRecord)>,
    membership: MembershipModel,
)
    requires
        state.membership == membership,
        forall|k: Seq<char>| #[trigger]
            state.kv.contains_key(k) <==> exists|i: int|
                0 <= i < records.len() && records[i].0@ == k,
        forall|i: int|
            0 <= i < records.len() ==> state.kv[(#[trigger] records[i]).0@] == records[i].1@,
    ensures
        state == image_state(
            ImageParts {
                last_included_index: state.last_applied,
                last_included_term: state.last_applied_term,
                membership,
                records: listing(records),
            },
        ),
{
    let all = listing(records);
    let p = ImageParts {
        last_included_index: state.last_applied,
        last_included_term: state.last_applied_term,
        membership,
        records: all,
    };
    assert forall|k: Seq<char>| state.kv.contains_key(k) == image_state(p).kv.contains_key(k) by {
        if state.kv.contains_key(k) {
            let i = choose|i: int| 0 <= i < records.len() && records[i].0@ == k;
            assert(all[i].0 == k);
        }
        if image_state(p).kv.contains_key(k) {
            let i = choose|i: int| 0 <= i < all.len() && all[i].0 == k;
            assert(records[i].0@ == k);
        }
    }
    assert forall|k: Seq<char>| state.kv.contains_key(k) implies state.kv[k] == image_state(
        p,
    ).kv[k] by {
        let i = choose|i: int| 0 <= i < all.len() && all[i].0 == k;
        assert(records[i].0@ == k);
        assert(all[i].1 == records[i].1@);
    }
    assert(state.kv =~= image_state(p).kv);
}

/// An image as bytes. The keys are written in the order in which the image
/// holds them.
pub fn encode_snapshot(s: &Snapshot) -> (out: Vec<u8>)
    requires
        s.wf(),
    ensures
        ({
            &&& parse_image(out@) matches Some(p)
            &&& image_valid(p)
            &&& image_state(p) == s@
            &&& out@ == image_bytes(p)
        }),
{
    let records = s.records();
    let out = encode_image(s.last_included_index(), s.last_included_term(), s.membership(), &records);
    proof {
        let p = ImageParts {
            last_included_index: s@.last_applied,
            last_included_term: s@.last_applied_term,
            membership: s@.membership,
            records: listing(records@),
        };
        s.lemma_wf();
        lemma_image_state(s@, records@, s@.membership);
        assert(image_valid(p)) by {
            assert forall|a: int| 0 <= a < p.records.len() implies 1 <= (
            #[trigger] p.records[a]).1.version <= p.last_included_index by {
                assert(s@.kv.contains_key(records@[a].0@));
            }
        }
    }
    out
}

/// The image that the bytes spell, if they spell the parts of one and
/// nothing more, no key comes twice, and every version is at least 1 and
/// at most the index of the image.
pub fn decode_snapshot(bytes: &Vec<u8>) -> (r: Option<Snapshot>)
    ensures
        match r {
            Some(s) => {
                &&& s.wf()
                &&& parse_image(bytes@) matches Some(p)
                &&& image_valid(p)
                &&& s@ == image_state(p)
            },
            None => parse_image(bytes@) matches Some(p) ==> !image_valid(p),
        },
{
    let found = decode_image(bytes);
    if found.is_none() {
        return None;
    }
    let (last_included_index, last_included_term, membership, records) = found.unwrap();
    let ghost listed = records@;
    let ghost m = membership@;
    let ghost p = ImageParts {
        last_included_index,
        last_included_term,
        membership: m,
        records: listing(listed),
    };
    let made = Snapshot::from_parts(last_included_index, last_included_term, records, membership);
    proof {
        assert(parts_valid(listed, last_included_index) <==> image_valid(p)) by {
            if parts_valid(listed, last_included_index) {
                assert forall|a: int, b: int| 0 <= a < b < p.records.len() implies (
                #[trigger] p.records[a]).0 != (#[trigger] p.records[b]).0 by {
                    assert(listed[a].0@ != listed[b].0@);
                }
                assert forall|a: int| 0 <= a < p.records.len() implies 1 <= (
                #[trigger] p.records[a]).1.version <= last_included_index by {
                    assert(1 <= listed[a].1.version <= last_included_index);
                }
            }
            if image_valid(p) {
                assert forall|a: int, b: int| 0 <= a < b < listed.len() implies (
                #[trigger] listed[a]).0@ != (#[trigger] listed[b]).0@ by {
                    assert(p.records[a].0 != p.records[b].0);
                }
                assert forall|a: int| 0 <= a < listed.len() implies 1 <= (
                #[trigger] listed[a]).1.version <= last_included_index by {
                    assert(1 <= p.records[a].1.version <= last_included_index);
                }
            }
        }
    }
    match made {
        Some(s) => {
            proof {
                assert forall|k: Seq<char>| #[trigger] s@.kv.contains_key(k) <==> exists|i: int|
                    0 <= i < listed.len() && listed[i].0@ == k by {
                    assert(s@.kv.dom().contains(k) == s@.kv.contains_key(k));
                }
                lemma_image_state(s@, listed, m);
            }
            Some(s)
        },
        None => None,
    }
}

} // verus!
