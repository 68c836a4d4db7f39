use metastore::metasrv::codec::{
    decode_hard_state, decode_image, decode_log, decode_snapshot, encode_hard_state, encode_image,
    encode_log, encode_snapshot, get_blob, get_entry, get_ids, get_membership, get_op, get_option,
    get_text, get_u64, put_blob, put_entry, put_ids, put_membership, put_op, put_option, put_text,
    put_u64,
};
use metastore::metasrv::log_store::LogStore;
use metastore::metasrv::membership::Membership;
use metastore::metasrv::state_machine::{KvRecord, StateMachine};
use metastore::metasrv::types::{HardState, LogEntry, Payload, WriteOp};

fn write(index: u64, term: u64, op: WriteOp) -> LogEntry {
    LogEntry { index, term, payload: Payload::ClientWrite { op, time: 1_700_000_000 } }
}

fn sample_entries(from: u64) -> Vec<LogEntry> {
    vec![
        LogEntry { index: from, term: 3, payload: Payload::NoOp },
        write(
            from + 1,
            3,
            WriteOp::Put { key: "ключ".to_string(), value: vec![0, 255, 7], expire_at: Some(99) },
        ),
        write(
            from + 2,
            3,
            WriteOp::CompareAndSwap { key: "k".to_string(), expected_version: 4, value: vec![] },
        ),
        write(from + 3, 4, WriteOp::Delete { key: String::new() }),
        LogEntry {
            index: from + 4,
            term: 4,
            payload: Payload::ConfigChange(
                Membership::from_parts(vec![1, 2, 3], Some(vec![1, 2, 3, 4])).unwrap(),
            ),
        },
        LogEntry {
            index: from + 5,
            term: 5,
            payload: Payload::ConfigChange(Membership::new(vec![1, 2, 3, 4]).unwrap()),
        },
    ]
}

#[test]
fn numbers_are_written_lowest_byte_first() {
    let mut out = vec![9u8];
    put_u64(&mut out, 0x0102_0304_0506_0708);
    assert_eq!(out, vec![9, 8, 7, 6, 5, 4, 3, 2, 1]);
    assert_eq!(get_u64(&out, 1), Some((0x0102_0304_0506_0708, 9)));
    assert_eq!(get_u64(&out, 2), None);
    assert_eq!(get_u64(&out, 9), None);
    assert_eq!(get_u64(&out, usize::MAX), None);
    let mut out = Vec::new();
    put_u64(&mut out, u64::MAX);
    assert_eq!(out, vec![255; 8]);
    assert_eq!(get_u64(&out, 0), Some((u64::MAX, 8)));
}

#[test]
fn a_number_or_none_is_written_after_a_byte_that_tells_which() {
    let mut out = Vec::new();
    put_option(&mut out, None);
    put_option(&mut out, Some(5));
    assert_eq!(out, vec![0, 1, 5, 0, 0, 0, 0, 0, 0, 0]);
    assert_eq!(get_option(&out, 0), Some((None, 1)));
    assert_eq!(get_option(&out, 1), Some((Some(5), 10)));
    assert_eq!(get_option(&out, 10), None);
    assert_eq!(get_option(&vec![2], 0), None);
    assert_eq!(get_option(&vec![1, 5, 0, 0], 0), None);
}

#[test]
fn bytes_and_texts_are_written_after_their_length() {
    let mut out = Vec::new();
    put_blob(&mut out, &vec![7, 8, 9]);
    assert_eq!(out, vec![3, 0, 0, 0, 0, 0, 0, 0, 7, 8, 9]);
    assert_eq!(get_blob(&out, 0), Some((vec![7, 8, 9], 11)));
    // A length beyond the bytes that follow is refused.
    assert_eq!(get_blob(&vec![4, 0, 0, 0, 0, 0, 0, 0, 7, 8, 9], 0), None);
    assert_eq!(get_blob(&vec![255; 8], 0), None);

    let mut out = Vec::new();
    put_text(&mut out, &"aé€".to_string());
    assert_eq!(out, vec![6, 0, 0, 0, 0, 0, 0, 0, 0x61, 0xc3, 0xa9, 0xe2, 0x82, 0xac]);
    assert_eq!(get_text(&out, 0), Some(("aé€".to_string(), 14)));
    let mut out = Vec::new();
    put_text(&mut out, &String::new());
    assert_eq!(get_text(&out, 0), Some((String::new(), 8)));
}

#[test]
fn bytes_that_are_no_text_are_refused_as_a_key() {
    // A lone continuation byte, a cut-off sequence, an overlong form and a
    // surrogate are no UTF-8.
    for bad in [vec![0x80u8], vec![0xe2, 0x82], vec![0xc0, 0xaf], vec![0xed, 0xa0, 0x80]] {
        let mut out = Vec::new();
        put_blob(&mut out, &bad);
        assert_eq!(get_blob(&out, 0), Some((bad.clone(), out.len())));
        assert_eq!(get_text(&out, 0), None);
        let mut op = vec![2u8];
        op.extend_from_slice(&out);
        assert_eq!(get_op(&op, 0), None);
    }
}

#[test]
fn lists_of_nodes_are_written_after_their_length() {
    let mut out = Vec::new();
    put_ids(&mut out, &vec![3, 1]);
    assert_eq!(out, vec![2, 0, 0, 0, 0, 0, 0, 0, 3, 0, 0, 0, 0, 0, 0, 0, 1, 0, 0, 0, 0, 0, 0, 0]);
    assert_eq!(get_ids(&out, 0), Some((vec![3, 1], 24)));
    out.pop();
    assert_eq!(get_ids(&out, 0), None);
    let mut out = Vec::new();
    put_ids(&mut out, &vec![]);
    assert_eq!(get_ids(&out, 0), Some((vec![], 8)));
    // A count that the bytes cannot hold is refused at the first number
    // that is missing.
    assert_eq!(get_ids(&vec![255; 8], 0), None);
}

#[test]
fn a_membership_is_read_back_unless_it_names_a_node_twice() {
    let joint = Membership::from_parts(vec![1, 2], Some(vec![1, 2, 3])).unwrap();
    let mut out = Vec::new();
    put_membership(&mut out, &joint);
    assert_eq!(get_membership(&out, 0), Some((joint, out.len())));
    let plain = Membership::new(vec![5]).unwrap();
    let mut out = Vec::new();
    put_membership(&mut out, &plain);
    assert_eq!(out, vec![1, 0, 0, 0, 0, 0, 0, 0, 5, 0, 0, 0, 0, 0, 0, 0, 0]);
    assert_eq!(get_membership(&out, 0), Some((plain, 17)));

    let mut twice = Vec::new();
    put_ids(&mut twice, &vec![1, 1]);
    twice.push(0);
    assert_eq!(get_membership(&twice, 0), None);
    let mut twice = Vec::new();
    put_ids(&mut twice, &vec![1, 2]);
    twice.push(1);
    put_ids(&mut twice, &vec![3, 3]);
    assert_eq!(get_membership(&twice, 0), None);
    let mut unknown = Vec::new();
    put_ids(&mut unknown, &vec![1, 2]);
    unknown.push(2);
    assert_eq!(get_membership(&unknown, 0), None);
}

#[test]
fn every_kind_of_entry_is_read_back() {
    for e in sample_entries(1) {
        let mut out = vec![0xaa];
        put_entry(&mut out, &e);
        let end = out.len();
        out.push(0xbb);
        assert_eq!(get_entry(&out, 1), Some((e, end)));
    }
    let mut out = Vec::new();
    put_op(&mut out, &WriteOp::Delete { key: "k".to_string() });
    assert_eq!(out, vec![2, 1, 0, 0, 0, 0, 0, 0, 0, b'k']);
    assert_eq!(get_op(&out, 0), Some((WriteOp::Delete { key: "k".to_string() }, 10)));
    assert_eq!(get_op(&vec![3, 0, 0, 0, 0, 0, 0, 0, 0], 0), None);
    // An entry with a payload of no known kind.
    let mut out = Vec::new();
    put_u64(&mut out, 1);
    put_u64(&mut out, 1);
    out.push(3);
    assert_eq!(get_entry(&out, 0), None);
    // An entry that ends early.
    let mut out = Vec::new();
    put_entry(&mut out, &sample_entries(1).remove(1));
    out.pop();
    assert_eq!(get_entry(&out, 0), None);
}

#[test]
fn the_hard_state_is_written_as_its_term_and_its_vote() {
    let voted = HardState { current_term: 258, voted_for: Some(7) };
    let bytes = encode_hard_state(voted);
    assert_eq!(bytes, vec![2, 1, 0, 0, 0, 0, 0, 0, 1, 7, 0, 0, 0, 0, 0, 0, 0]);
    assert_eq!(decode_hard_state(&bytes), Some(voted));
    let fresh = HardState { current_term: 0, voted_for: None };
    let bytes = encode_hard_state(fresh);
    assert_eq!(bytes, vec![0, 0, 0, 0, 0, 0, 0, 0, 0]);
    assert_eq!(decode_hard_state(&bytes), Some(fresh));

    assert_eq!(decode_hard_state(&vec![]), None);
    assert_eq!(decode_hard_state(&vec![0; 8]), None);
    assert_eq!(decode_hard_state(&vec![0, 0, 0, 0, 0, 0, 0, 0, 2]), None);
    assert_eq!(decode_hard_state(&vec![0, 0, 0, 0, 0, 0, 0, 0, 0, 0]), None);
    assert_eq!(decode_hard_state(&vec![0, 0, 0, 0, 0, 0, 0, 0, 1, 7]), None);
}

#[test]
fn a_log_is_read_back_as_it_was_written() {
    let mut store = LogStore::new();
    store.reset(10, 2);
    store.append(sample_entries(11)).unwrap();
    store.write_hard_state(HardState { current_term: 5, voted_for: Some(2) });
    let bytes = encode_log(&store);
    let back = decode_log(&bytes).unwrap();
    assert_eq!(back.base_index(), 10);
    assert_eq!(back.base_term(), 2);
    assert_eq!(back.last_index(), 16);
    assert_eq!(back.entries_after(10), sample_entries(11));
    // The hard state is kept apart from the log.
    assert_eq!(back.read_hard_state(), HardState { current_term: 0, voted_for: None });

    let empty = decode_log(&encode_log(&LogStore::new())).unwrap();
    assert_eq!(empty.base_index(), 0);
    assert_eq!(empty.last_index(), 0);
    assert_eq!(encode_log(&LogStore::new()), vec![0; 24]);
}

#[test]
fn a_log_that_is_cut_off_or_goes_on_is_refused() {
    let mut store = LogStore::new();
    store.append(sample_entries(1)).unwrap();
    let bytes = encode_log(&store);
    for keep in 0..bytes.len() {
        assert!(decode_log(&bytes[..keep].to_vec()).is_none(), "cut off at {}", keep);
    }
    let mut longer = bytes.clone();
    longer.push(0);
    assert!(decode_log(&longer).is_none());
    // More entries are announced than there are bytes.
    let mut many = Vec::new();
    put_u64(&mut many, 0);
    put_u64(&mut many, 0);
    put_u64(&mut many, u64::MAX);
    assert!(decode_log(&many).is_none());
}

#[test]
fn a_log_with_a_gap_is_refused() {
    let build = |base: u64, indexes: &[u64]| {
        let mut out = Vec::new();
        put_u64(&mut out, base);
        put_u64(&mut out, 1);
        put_u64(&mut out, indexes.len() as u64);
        for i in indexes {
            put_entry(&mut out, &LogEntry { index: *i, term: 1, payload: Payload::NoOp });
        }
        out
    };
    assert!(decode_log(&build(0, &[1, 2, 3])).is_some());
    assert!(decode_log(&build(4, &[5, 6])).is_some());
    assert!(decode_log(&build(0, &[1, 3])).is_none());
    assert!(decode_log(&build(0, &[2, 3])).is_none());
    assert!(decode_log(&build(4, &[4, 5])).is_none());
    assert!(decode_log(&build(0, &[2, 1])).is_none());
    assert!(decode_log(&build(u64::MAX, &[0])).is_none());
}

#[test]
fn an_image_is_read_back_as_it_was_written() {
    let mut source = StateMachine::new(Membership::new(vec![1, 2, 3]).unwrap());
    for e in sample_entries(1) {
        source.apply(&e);
    }
    source.apply(&write(
        7,
        5,
        WriteOp::Put { key: "x".to_string(), value: b"1".to_vec(), expire_at: None },
    ));
    let image = source.snapshot();
    let bytes = encode_snapshot(&image);
    let back = decode_snapshot(&bytes).unwrap();
    assert_eq!(back.last_included_index(), 7);
    assert_eq!(back.last_included_term(), 5);
    assert_eq!(back.membership().members(), &vec![1, 2, 3, 4]);
    let mut listed = back.records();
    listed.sort_by(|a, b| a.0.cmp(&b.0));
    let mut expected = image.records();
    expected.sort_by(|a, b| a.0.cmp(&b.0));
    assert_eq!(listed, expected);
    assert_eq!(listed.len(), 2);

    let mut target = StateMachine::new(Membership::single(9));
    assert_eq!(target.install_snapshot(back), 7);
    for key in ["ключ", "k", "x", ""] {
        assert_eq!(target.get(&key.to_string(), 0), source.get(&key.to_string(), 0));
    }
    assert_eq!(target.get(&"x".to_string(), 0).unwrap().value, b"1".to_vec());
    assert_eq!(target.get(&"ключ".to_string(), 98).unwrap().version, 1);
    assert!(target.get(&"ключ".to_string(), 99).is_none());
}

#[test]
fn the_parts_of_an_image_are_written_in_their_order() {
    let record = |v: u64| KvRecord { value: vec![v as u8], version: v, expire_at: None };
    let records = vec![("b".to_string(), record(2)), ("a".to_string(), record(1))];
    let bytes = encode_image(5, 2, &Membership::single(1), &records);
    let mut expected = Vec::new();
    put_u64(&mut expected, 5);
    put_u64(&mut expected, 2);
    put_membership(&mut expected, &Membership::single(1));
    put_u64(&mut expected, 2);
    for (key, r) in &records {
        put_text(&mut expected, key);
        put_blob(&mut expected, &r.value);
        put_u64(&mut expected, r.version);
        put_option(&mut expected, r.expire_at);
    }
    assert_eq!(bytes, expected);
    let (index, term, membership, back) = decode_image(&bytes).unwrap();
    assert_eq!((index, term), (5, 2));
    assert_eq!(membership, Membership::single(1));
    assert_eq!(back, records);
    let mut longer = bytes.clone();
    longer.push(0);
    assert!(decode_image(&longer).is_none());
    assert!(decode_image(&bytes[..bytes.len() - 1].to_vec()).is_none());
}

#[test]
fn an_image_with_a_key_twice_or_a_version_out_of_range_is_refused() {
    let record = |v: u64| KvRecord { value: vec![], version: v, expire_at: None };
    let image = |records: Vec<(String, KvRecord)>| {
        let bytes = encode_image(5, 2, &Membership::single(1), &records);
        assert!(decode_image(&bytes).is_some());
        decode_snapshot(&bytes)
    };
    assert!(image(vec![("a".to_string(), record(1)), ("b".to_string(), record(5))]).is_some());
    assert!(image(vec![]).is_some());
    assert!(image(vec![("a".to_string(), record(1)), ("a".to_string(), record(2))]).is_none());
    assert!(image(vec![("a".to_string(), record(0))]).is_none());
    assert!(image(vec![("a".to_string(), record(6))]).is_none());
    assert!(decode_snapshot(&vec![1, 2, 3]).is_none());
}
