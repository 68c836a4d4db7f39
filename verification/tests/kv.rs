use metastore::metasrv::membership::Membership;
use metastore::metasrv::state_machine::{AppliedResult, KvRecord, Snapshot, StateMachine};
use metastore::metasrv::types::{LogEntry, Payload, WriteOp};

fn put(index: u64, key: &str, value: &str) -> LogEntry {
    LogEntry {
        index,
        term: 1,
        payload: Payload::ClientWrite {
            op: WriteOp::Put {
                key: key.to_string(),
                value: value.as_bytes().to_vec(),
                expire_at: None,
            },
            time: 100,
        },
    }
}

fn cas(index: u64, key: &str, expected_version: u64, value: &str) -> LogEntry {
    LogEntry {
        index,
        term: 1,
        payload: Payload::ClientWrite {
            op: WriteOp::CompareAndSwap {
                key: key.to_string(),
                expected_version,
                value: value.as_bytes().to_vec(),
            },
            time: 100,
        },
    }
}

fn delete(index: u64, key: &str) -> LogEntry {
    LogEntry {
        index,
        term: 1,
        payload: Payload::ClientWrite { op: WriteOp::Delete { key: key.to_string() }, time: 100 },
    }
}

fn fresh() -> StateMachine {
    StateMachine::new(Membership::single(1))
}

#[test]
fn put_then_read_returns_value_and_version_one() {
    let mut sm = fresh();
    assert_eq!(sm.apply(&put(1, "x", "1")), AppliedResult::Written { version: 1 });
    let r = sm.get(&"x".to_string(), 100).unwrap();
    assert_eq!(r.value, b"1".to_vec());
    assert_eq!(r.version, 1);
    assert_eq!(sm.last_applied(), 1);
    assert!(sm.get(&"y".to_string(), 100).is_none());
}

#[test]
fn put_twice_increments_the_version() {
    let mut sm = fresh();
    sm.apply(&put(1, "x", "1"));
    assert_eq!(sm.apply(&put(2, "x", "2")), AppliedResult::Written { version: 2 });
    let r = sm.get(&"x".to_string(), 0).unwrap();
    assert_eq!(r.value, b"2".to_vec());
    assert_eq!(r.version, 2);
}

#[test]
fn compare_and_swap_with_stale_version_fails() {
    let mut sm = fresh();
    sm.apply(&put(1, "x", "1"));
    sm.apply(&put(2, "x", "1b"));
    assert_eq!(
        sm.apply(&cas(3, "x", 1, "2")),
        AppliedResult::VersionMismatch { current: 2 }
    );
    let r = sm.get(&"x".to_string(), 0).unwrap();
    assert_eq!(r.version, 2);
    assert_eq!(r.value, b"1b".to_vec());
    assert_eq!(sm.last_applied(), 3);
}

#[test]
fn compare_and_swap_with_current_version_writes() {
    let mut sm = fresh();
    assert_eq!(sm.apply(&cas(1, "x", 0, "a")), AppliedResult::Written { version: 1 });
    assert_eq!(sm.apply(&cas(2, "x", 1, "b")), AppliedResult::Written { version: 2 });
    assert_eq!(sm.get(&"x".to_string(), 0).unwrap().value, b"b".to_vec());
    assert_eq!(sm.apply(&cas(3, "y", 1, "b")), AppliedResult::VersionMismatch { current: 0 });
}

#[test]
fn delete_removes_the_key() {
    let mut sm = fresh();
    sm.apply(&put(1, "x", "1"));
    assert_eq!(sm.apply(&delete(2, "x")), AppliedResult::Deleted { existed: true });
    assert!(sm.get(&"x".to_string(), 0).is_none());
    assert_eq!(sm.apply(&delete(3, "x")), AppliedResult::Deleted { existed: false });
    assert_eq!(sm.apply(&put(4, "x", "again")), AppliedResult::Written { version: 1 });
}

#[test]
fn values_expire_by_the_time_of_the_entry() {
    let mut sm = fresh();
    let e = LogEntry {
        index: 1,
        term: 1,
        payload: Payload::ClientWrite {
            op: WriteOp::Put { key: "x".to_string(), value: vec![1], expire_at: Some(200) },
            time: 100,
        },
    };
    assert_eq!(sm.apply(&e), AppliedResult::Written { version: 1 });
    assert!(sm.get(&"x".to_string(), 199).is_some());
    assert!(sm.get(&"x".to_string(), 200).is_none());
    // A write after the value expired starts the versions again.
    let later = LogEntry {
        index: 2,
        term: 1,
        payload: Payload::ClientWrite {
            op: WriteOp::Put { key: "x".to_string(), value: vec![2], expire_at: None },
            time: 300,
        },
    };
    assert_eq!(sm.apply(&later), AppliedResult::Written { version: 1 });
}

#[test]
fn applying_an_entry_twice_is_applying_it_once() {
    let mut once = fresh();
    once.apply(&put(1, "x", "1"));
    let mut twice = fresh();
    twice.apply(&put(1, "x", "1"));
    assert_eq!(twice.apply(&put(1, "x", "1")), AppliedResult::AlreadyApplied);
    assert_eq!(twice.get(&"x".to_string(), 0), once.get(&"x".to_string(), 0));
    assert_eq!(twice.get(&"x".to_string(), 0).unwrap().version, 1);
    assert_eq!(twice.last_applied(), once.last_applied());
}

#[test]
fn entries_out_of_order_are_left_out() {
    let mut sm = fresh();
    assert_eq!(sm.apply(&put(2, "x", "1")), AppliedResult::OutOfOrder);
    assert!(sm.get(&"x".to_string(), 0).is_none());
    assert_eq!(sm.last_applied(), 0);
    let noop = LogEntry { index: 1, term: 1, payload: Payload::NoOp };
    assert_eq!(sm.apply(&noop), AppliedResult::NoOp);
}

#[test]
fn config_change_replaces_the_membership() {
    let mut sm = fresh();
    let m = Membership::new(vec![1, 2, 3]).unwrap();
    let e = LogEntry { index: 1, term: 1, payload: Payload::ConfigChange(m) };
    assert_eq!(sm.apply(&e), AppliedResult::ConfigChanged);
    assert_eq!(sm.membership().members(), &vec![1, 2, 3]);
}

#[test]
fn snapshot_then_install_gives_the_same_state() {
    let mut source = fresh();
    source.apply(&put(1, "x", "1"));
    source.apply(&put(2, "y", "2"));
    source.apply(&put(3, "x", "3"));
    let image = source.snapshot();
    assert_eq!(image.last_included_index(), 3);
    assert_eq!(image.last_included_term(), 1);
    let mut target = StateMachine::new(Membership::single(9));
    assert_eq!(target.install_snapshot(image), 3);
    assert_eq!(target.last_applied(), 3);
    assert_eq!(target.get(&"x".to_string(), 0), source.get(&"x".to_string(), 0));
    assert_eq!(target.get(&"y".to_string(), 0), source.get(&"y".to_string(), 0));
    assert_eq!(target.get(&"x".to_string(), 0).unwrap().version, 2);
    assert_eq!(target.membership().members(), &vec![1]);
    // The next entry goes on from the image.
    assert_eq!(target.apply(&put(4, "z", "4")), AppliedResult::Written { version: 1 });
}

#[test]
fn snapshot_from_parts_checks_keys_and_versions() {
    let record = |v: u64| KvRecord { value: vec![7], version: v, expire_at: None };
    let ok = Snapshot::from_parts(
        5,
        2,
        vec![("a".to_string(), record(1)), ("b".to_string(), record(5))],
        Membership::single(1),
    )
    .unwrap();
    assert_eq!(ok.last_included_index(), 5);
    assert_eq!(ok.last_included_term(), 2);
    let mut parts = ok.records();
    parts.sort_by(|x, y| x.0.cmp(&y.0));
    assert_eq!(parts, vec![("a".to_string(), record(1)), ("b".to_string(), record(5))]);
    assert!(Snapshot::from_parts(
        5,
        2,
        vec![("a".to_string(), record(1)), ("a".to_string(), record(2))],
        Membership::single(1)
    )
    .is_none());
    assert!(Snapshot::from_parts(5, 2, vec![("a".to_string(), record(6))], Membership::single(1))
        .is_none());
    assert!(Snapshot::from_parts(5, 2, vec![("a".to_string(), record(0))], Membership::single(1))
        .is_none());
}
