use metastore::metasrv::membership::{has_majority, ChangeError, Membership};

#[test]
fn membership_rejects_repeated_nodes() {
    assert!(Membership::new(vec![1, 2, 1]).is_none());
    let m = Membership::new(vec![1, 2, 3]).unwrap();
    assert_eq!(m.members(), &vec![1, 2, 3]);
    assert!(m.members_after_change().is_none());
    assert!(!m.is_joint());
    assert!(m.is_voter(2));
    assert!(!m.is_voter(4));
}

#[test]
fn quorum_is_more_than_half() {
    let m = Membership::new(vec![1, 2, 3]).unwrap();
    assert!(!m.is_quorum(&vec![]));
    assert!(!m.is_quorum(&vec![1]));
    assert!(m.is_quorum(&vec![1, 3]));
    assert!(m.is_quorum(&vec![1, 2, 3]));
    assert!(!m.is_quorum(&vec![1, 1, 7]));
    let four = Membership::new(vec![1, 2, 3, 4]).unwrap();
    assert!(!four.is_quorum(&vec![1, 2]));
    assert!(four.is_quorum(&vec![1, 2, 4]));
    assert!(Membership::single(5).is_quorum(&vec![5]));
    assert!(has_majority(&vec![1, 2], &vec![2, 1]));
    assert!(!has_majority(&vec![1, 2], &vec![2]));
}

#[test]
fn join_goes_through_the_union() {
    let m = Membership::new(vec![1, 2, 3]).unwrap();
    let plan = m.plan_join(4).unwrap();
    assert_eq!(plan.joint.members(), &vec![1, 2, 3]);
    assert_eq!(plan.joint.members_after_change(), Some(&vec![1, 2, 3, 4]));
    assert_eq!(plan.target.members(), &vec![1, 2, 3, 4]);
    assert!(plan.target.members_after_change().is_none());
    // During the change both sets have to agree.
    assert!(plan.joint.is_voter(4));
    assert!(!plan.joint.is_quorum(&vec![1, 2]));
    assert!(plan.joint.is_quorum(&vec![1, 2, 4]));
    assert!(!plan.joint.is_quorum(&vec![3, 4]));
    assert_eq!(m.plan_join(2).unwrap_err(), ChangeError::AlreadyMember);
    assert_eq!(plan.joint.plan_join(5).unwrap_err(), ChangeError::InProgress);
}

#[test]
fn leave_keeps_the_old_set_until_the_second_step() {
    let m = Membership::new(vec![1, 2, 3]).unwrap();
    let plan = m.plan_leave(2).unwrap();
    assert_eq!(plan.joint.members(), &vec![1, 2, 3]);
    assert_eq!(plan.joint.members_after_change(), Some(&vec![1, 2, 3]));
    assert_eq!(plan.target.members(), &vec![1, 3]);
    assert_eq!(m.plan_leave(9).unwrap_err(), ChangeError::NotMember);
    assert_eq!(Membership::single(1).plan_leave(1).unwrap_err(), ChangeError::LastMember);
    assert_eq!(plan.joint.plan_leave(1).unwrap_err(), ChangeError::InProgress);
}

/// The nodes 1 to 5 that the bits of `mask` pick.
fn picked(mask: u32) -> Vec<u64> {
    (1..=5u64).filter(|id| mask & (1 << (id - 1)) != 0).collect()
}

/// Whether every quorum of the first membership shares a node with every
/// quorum of the second, over all sets of the nodes 1 to 5.
fn quorums_meet(first: &Membership, second: &Membership) -> bool {
    for a in 0..32u32 {
        for b in 0..32u32 {
            if a & b == 0 && first.is_quorum(&picked(a)) && second.is_quorum(&picked(b)) {
                return false;
            }
        }
    }
    true
}

#[test]
fn quorums_stay_together_through_a_change() {
    let m = Membership::new(vec![1, 2, 3, 4]).unwrap();
    let join = m.plan_join(5).unwrap();
    assert!(quorums_meet(&m, &join.joint));
    assert!(quorums_meet(&join.joint, &join.target));
    let leave = m.plan_leave(4).unwrap();
    assert!(quorums_meet(&m, &leave.joint));
    assert!(quorums_meet(&leave.joint, &leave.target));
    // Two memberships that are further apart can be parted.
    let far = Membership::new(vec![3, 4, 5]).unwrap();
    assert!(!quorums_meet(&Membership::new(vec![1, 2, 3]).unwrap(), &far));
}
