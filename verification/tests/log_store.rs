use metastore::metasrv::log_store::{LogStore, StoreError};
use metastore::metasrv::types::{HardState, LogEntry, Payload};

fn entry(index: u64, term: u64) -> LogEntry {
    LogEntry { index, term, payload: Payload::NoOp }
}

fn filled() -> LogStore {
    let mut s = LogStore::new();
    s.append(vec![entry(1, 1), entry(2, 1), entry(3, 2), entry(4, 3)]).unwrap();
    s
}

#[test]
fn new_store_is_empty() {
    let s = LogStore::new();
    assert_eq!(s.last_index(), 0);
    assert_eq!(s.last_term(), 0);
    assert_eq!(s.base_index(), 0);
    assert_eq!(s.read_hard_state(), HardState { current_term: 0, voted_for: None });
    assert!(s.entry(1).is_none());
    assert_eq!(s.term_at(0), Some(0));
    assert_eq!(s.term_at(1), None);
}

#[test]
fn append_continues_the_log() {
    let s = filled();
    assert_eq!(s.last_index(), 4);
    assert_eq!(s.last_term(), 3);
    assert_eq!(s.entry(3).unwrap(), &entry(3, 2));
    assert_eq!(s.term_at(2), Some(1));
    assert_eq!(s.term_at(5), None);
}

#[test]
fn append_rejects_a_gap() {
    let mut s = filled();
    assert_eq!(s.append(vec![entry(6, 3)]), Err(StoreError::NotContiguous));
    assert_eq!(s.append(vec![entry(4, 3)]), Err(StoreError::NotContiguous));
    assert_eq!(s.append(vec![entry(5, 3), entry(7, 3)]), Err(StoreError::NotContiguous));
    assert_eq!(s.last_index(), 4);
    assert_eq!(s.append(vec![]), Ok(()));
    assert_eq!(s.append(vec![entry(5, 3)]), Ok(()));
    assert_eq!(s.last_index(), 5);
}

#[test]
fn get_returns_the_range() {
    let s = filled();
    assert_eq!(s.get(2, 4), vec![entry(2, 1), entry(3, 2)]);
    assert_eq!(s.get(0, 100), vec![entry(1, 1), entry(2, 1), entry(3, 2), entry(4, 3)]);
    assert_eq!(s.get(4, 5), vec![entry(4, 3)]);
    assert_eq!(s.get(3, 3), vec![]);
    assert_eq!(s.get(5, 9), vec![]);
    assert_eq!(s.get(4, 2), vec![]);
}

#[test]
fn truncate_after_is_idempotent() {
    let mut s = filled();
    s.truncate_after(2);
    assert_eq!(s.last_index(), 2);
    assert_eq!(s.get(0, 100), vec![entry(1, 1), entry(2, 1)]);
    s.truncate_after(2);
    assert_eq!(s.get(0, 100), vec![entry(1, 1), entry(2, 1)]);
    s.truncate_after(10);
    assert_eq!(s.last_index(), 2);
    s.truncate_after(0);
    assert_eq!(s.last_index(), 0);
}

#[test]
fn purge_before_moves_the_base() {
    let mut s = filled();
    s.purge_before(3);
    assert_eq!(s.base_index(), 2);
    assert_eq!(s.base_term(), 1);
    assert_eq!(s.last_index(), 4);
    assert!(s.entry(2).is_none());
    assert_eq!(s.term_at(2), Some(1));
    assert_eq!(s.get(0, 100), vec![entry(3, 2), entry(4, 3)]);
    // Nothing is there to purge before the base or beyond the end.
    s.purge_before(2);
    assert_eq!(s.base_index(), 2);
    s.purge_before(7);
    assert_eq!(s.base_index(), 2);
    s.purge_before(5);
    assert_eq!(s.base_index(), 4);
    assert_eq!(s.base_term(), 3);
    assert_eq!(s.last_index(), 4);
    assert_eq!(s.append(vec![entry(5, 3)]), Ok(()));
}

#[test]
fn truncate_does_not_reach_below_the_base() {
    let mut s = filled();
    s.purge_before(3);
    s.truncate_after(1);
    assert_eq!(s.base_index(), 2);
    assert_eq!(s.last_index(), 2);
}

#[test]
fn reset_starts_from_an_image() {
    let mut s = filled();
    s.write_hard_state(HardState { current_term: 7, voted_for: Some(3) });
    s.reset(10, 5);
    assert_eq!(s.base_index(), 10);
    assert_eq!(s.base_term(), 5);
    assert_eq!(s.last_index(), 10);
    assert_eq!(s.last_term(), 5);
    assert_eq!(s.read_hard_state(), HardState { current_term: 7, voted_for: Some(3) });
    assert_eq!(s.append(vec![entry(11, 6)]), Ok(()));
    assert_eq!(s.entries_after(10), vec![entry(11, 6)]);
}
