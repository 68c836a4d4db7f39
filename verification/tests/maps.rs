use metastore::metasrv::id_map::IdMap;
use metastore::metasrv::membership::Membership;
use metastore::str_map::StrMap;

#[test]
fn str_map_inserts_replaces_and_removes() {
    let mut m: StrMap<u32> = StrMap::new();
    assert_eq!(m.len(), 0);
    assert_eq!(m.insert("a".to_string(), 1), None);
    assert_eq!(m.insert("b".to_string(), 2), None);
    assert_eq!(m.insert("a".to_string(), 3), Some(1));
    assert_eq!(m.len(), 2);
    assert_eq!(m.get(&"a".to_string()), Some(&3));
    assert_eq!(m.get(&"c".to_string()), None);
    assert!(m.contains_key(&"b".to_string()));
    assert_eq!(m.position(&"b".to_string()), Some(1));
    assert_eq!(m.key(0), "a");
    assert_eq!(m.value(1), &2);
    assert_eq!(m.remove(&"a".to_string()), Some(3));
    assert_eq!(m.remove(&"a".to_string()), None);
    assert_eq!(m.len(), 1);
    assert_eq!(m.position(&"b".to_string()), Some(0));
}

#[test]
fn id_map_inserts_replaces_and_removes() {
    let mut m: IdMap<&str> = IdMap::new();
    assert_eq!(m.insert(7, "seven"), None);
    assert_eq!(m.insert(9, "nine"), None);
    assert_eq!(m.insert(7, "again"), Some("seven"));
    assert_eq!(m.len(), 2);
    assert_eq!(m.get(7), Some(&"again"));
    assert_eq!(m.get(8), None);
    assert!(m.contains_key(9));
    assert_eq!(m.key(1), 9);
    assert_eq!(m.remove(7), Some("again"));
    assert_eq!(m.len(), 1);
    assert_eq!(m.remove(7), None);
}

#[test]
fn membership_from_parts_checks_both_sets() {
    let m = Membership::from_parts(vec![1, 2], Some(vec![1, 2, 3])).unwrap();
    assert!(m.is_joint());
    assert_eq!(m.members(), &vec![1, 2]);
    assert_eq!(m.members_after_change(), Some(&vec![1, 2, 3]));
    assert!(Membership::from_parts(vec![1, 1], None).is_none());
    assert!(Membership::from_parts(vec![1, 2], Some(vec![3, 3])).is_none());
    assert_eq!(Membership::from_parts(vec![4], None).unwrap(), Membership::single(4));
    let copy = m.clone_membership();
    assert_eq!(copy, m);
}
