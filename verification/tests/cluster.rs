use metastore::metasrv::facade::{write_reply, ClientError, MetaStore, ReadMode, ReadStatus, WriteReply};
use metastore::metasrv::log_store::LogStore;
use metastore::metasrv::membership::Membership;
use metastore::metasrv::messages::{
    AppendOutcome, AppendResult, MembershipError, ProposeError, VoteResult,
};
use metastore::metasrv::node::{Node, Replication};
use metastore::metasrv::node_model::Role;
use metastore::metasrv::state_machine::{AppliedResult, Snapshot};
use metastore::metasrv::types::{HardState, LogEntry, Payload, WriteOp};

fn cluster(ids: &[u64]) -> Vec<MetaStore> {
    ids.iter()
        .map(|id| {
            let mut s = MetaStore::new(*id, Membership::new(ids.to_vec()).unwrap());
            for other in ids {
                s.set_address(*other, format!("10.0.0.{}:9191", other));
            }
            s
        })
        .collect()
}

fn at(net: &[MetaStore], id: u64) -> usize {
    net.iter().position(|s| s.node.id() == id).unwrap()
}

/// Lets the node stand for election and carries its request to the peers
/// that it can reach. Says whether it leads afterwards.
fn elect(net: &mut Vec<MetaStore>, id: u64, reachable: &[u64]) -> bool {
    let me = at(net, id);
    if let Some((request, peers)) = net[me].node.election_timeout() {
        for peer in peers {
            if !reachable.contains(&peer) {
                continue;
            }
            if let Some(p) = net.iter().position(|s| s.node.id() == peer) {
                let answer = net[p].node.request_vote(
                    request.candidate_id,
                    request.term,
                    request.last_log_index,
                    request.last_log_term,
                );
                net[me].node.handle_vote_result(peer, answer);
            }
        }
    }
    net[me].node.role() == Role::Leader
}

/// One round from the leader to a peer: what the leader sends is handled
/// by the peer and the answer by the leader.
fn round(net: &mut Vec<MetaStore>, leader: u64, peer: u64) -> Option<AppendResult> {
    let l = at(net, leader);
    let p = at(net, peer);
    let answer = match net[l].node.replicate(peer)? {
        Replication::Append {
            term,
            leader_id,
            prev_log_index,
            prev_log_term,
            entries,
            leader_commit,
        } => net[p].node.append_entries(
            leader_id,
            term,
            prev_log_index,
            prev_log_term,
            entries,
            leader_commit,
        ),
        Replication::Snapshot { term, leader_id, snapshot } => {
            net[p].node.install_snapshot(leader_id, term, snapshot)
        }
    };
    net[l].node.handle_append_result(peer, answer);
    Some(answer)
}

/// Rounds from the leader to a peer until the peer holds the leader's log
/// and knows the leader's commit index.
fn sync(net: &mut Vec<MetaStore>, leader: u64, peer: u64) {
    let l = at(net, leader);
    for _ in 0..64 {
        let last = net[l].node.store().last_index();
        match round(net, leader, peer) {
            Some(AppendResult { outcome: AppendOutcome::Appended { match_index }, .. })
                if match_index == last =>
            {
                break;
            }
            Some(_) => {}
            None => break,
        }
    }
    round(net, leader, peer);
}

fn put(key: &str, value: &str) -> WriteOp {
    WriteOp::Put { key: key.to_string(), value: value.as_bytes().to_vec(), expire_at: None }
}

fn entries(node: &Node) -> Vec<LogEntry> {
    node.store().get(0, u64::MAX)
}

#[test]
fn single_node_put_then_read() {
    let mut net = cluster(&[1]);
    assert!(elect(&mut net, 1, &[]));
    let s = &mut net[0];
    assert_eq!(s.node.current_term(), 1);
    let index = s.write(put("x", "1"), 10).unwrap();
    assert_eq!(index, 2);
    assert_eq!(s.node.commit_index(), 2);
    let applied = s.node.apply_committed();
    assert_eq!(
        applied,
        vec![(1, AppliedResult::NoOp), (2, AppliedResult::Written { version: 1 })]
    );
    assert_eq!(write_reply(applied[1].1), Ok(WriteReply::Written { version: 1 }));
    let ticket = s.begin_read().unwrap();
    assert_eq!(ticket.read_index, 2);
    assert_eq!(s.read_status(&ticket), ReadStatus::Ready);
    let r = s.read(&"x".to_string(), 10, ReadMode::Linearizable, ticket.read_index).unwrap().unwrap();
    assert_eq!(r.value, b"1".to_vec());
    assert_eq!(r.version, 1);
}

#[test]
fn test_kv_api_write_read_cross_nodes() {
    let mut net = cluster(&[0, 1, 2]);
    assert!(elect(&mut net, 0, &[1, 2]));
    let index = net[0].write(put("x", "written"), 10).unwrap();
    // Nothing is committed before a follower holds the entry.
    assert!(net[0].node.commit_index() < index);
    sync(&mut net, 0, 1);
    assert_eq!(net[0].node.commit_index(), index);
    net[0].node.apply_committed();

    // The read begins on the leader, which confirms that it still leads.
    let mut ticket = net[0].begin_read().unwrap();
    assert_eq!(ticket.read_index, index);
    assert_eq!(net[0].read_status(&ticket), ReadStatus::Pending);
    let answer = round(&mut net, 0, 2).unwrap();
    net[0].confirm_read(&mut ticket, 2, answer);
    assert_eq!(net[0].read_status(&ticket), ReadStatus::Ready);

    // A follower that is behind the read index does not serve the read.
    let key = "x".to_string();
    assert_eq!(
        net[2].read(&key, 10, ReadMode::Linearizable, ticket.read_index),
        Err(ClientError::Unavailable)
    );
    sync(&mut net, 0, 2);
    net[2].node.apply_committed();
    let r = net[2].read(&key, 10, ReadMode::Linearizable, ticket.read_index).unwrap().unwrap();
    assert_eq!(r.value, b"written".to_vec());
    assert_eq!(r.version, 1);
    net[1].node.apply_committed();
    let r = net[1].read(&key, 10, ReadMode::Local, 0).unwrap().unwrap();
    assert_eq!(r.value, b"written".to_vec());
}

#[test]
fn write_on_a_follower_is_redirected() {
    let mut net = cluster(&[0, 1, 2]);
    assert_eq!(
        net[1].write(put("x", "1"), 10),
        Err(ClientError::NotLeader { leader_hint: None })
    );
    assert!(elect(&mut net, 0, &[1, 2]));
    sync(&mut net, 0, 1);
    assert_eq!(net[1].node.leader_id(), Some(0));
    assert_eq!(
        net[1].write(put("x", "1"), 10),
        Err(ClientError::NotLeader { leader_hint: Some("10.0.0.0:9191".to_string()) })
    );
    assert_eq!(
        net[1].begin_read().unwrap_err(),
        ClientError::NotLeader { leader_hint: Some("10.0.0.0:9191".to_string()) }
    );
    assert_eq!(
        net[1].node.propose(Payload::NoOp),
        Err(ProposeError::NotLeader { leader_hint: Some(0) })
    );
    assert_eq!(net[1].join(7, "a".to_string()).unwrap_err(), ClientError::NotLeader {
        leader_hint: Some("10.0.0.0:9191".to_string())
    });
    assert_eq!(
        net[1].node.leave(2),
        Err(MembershipError::NotLeader { leader_hint: Some(0) })
    );
}

#[test]
fn compare_and_swap_conflict_reaches_the_client() {
    let mut net = cluster(&[1]);
    assert!(elect(&mut net, 1, &[]));
    let s = &mut net[0];
    s.write(put("x", "1"), 10).unwrap();
    s.write(put("x", "1b"), 11).unwrap();
    let index = s
        .write(
            WriteOp::CompareAndSwap {
                key: "x".to_string(),
                expected_version: 1,
                value: b"2".to_vec(),
            },
            12,
        )
        .unwrap();
    let applied = s.node.apply_committed();
    let (i, result) = *applied.last().unwrap();
    assert_eq!(i, index);
    assert_eq!(result, AppliedResult::VersionMismatch { current: 2 });
    assert_eq!(write_reply(result), Err(ClientError::VersionMismatch));
    let r = s.read(&"x".to_string(), 12, ReadMode::Local, 0).unwrap().unwrap();
    assert_eq!(r.version, 2);
    assert_eq!(r.value, b"1b".to_vec());
}

#[test]
fn a_voter_votes_once_in_a_term() {
    let mut net = cluster(&[0, 1, 2]);
    let a = net[1].node.request_vote(0, 1, 0, 0);
    assert!(a.vote_granted);
    assert_eq!(a.term, 1);
    let b = net[1].node.request_vote(2, 1, 0, 0);
    assert!(!b.vote_granted);
    // The same candidate may ask again.
    assert!(net[1].node.request_vote(0, 1, 0, 0).vote_granted);
    // A request of an earlier term is refused with the later term.
    let stale = net[1].node.request_vote(2, 0, 5, 5);
    assert!(!stale.vote_granted);
    assert_eq!(stale.term, 1);
    // A later term frees the vote.
    assert!(net[1].node.request_vote(2, 2, 0, 0).vote_granted);
}

#[test]
fn a_vote_needs_an_up_to_date_log() {
    let mut net = cluster(&[0, 1, 2]);
    assert!(elect(&mut net, 0, &[1, 2]));
    net[0].write(put("x", "1"), 10).unwrap();
    sync(&mut net, 0, 1);
    // Node 2 has an empty log: node 1, which holds entries of term 1, refuses it.
    let answer = net[1].node.request_vote(2, 2, 0, 0);
    assert!(!answer.vote_granted);
    assert_eq!(answer.term, 2);
    // A log with the same last term and at least the same length is accepted.
    assert!(net[1].node.request_vote(2, 3, 2, 1).vote_granted);
    // So is a log with a later last term, however short.
    assert!(net[1].node.request_vote(0, 4, 1, 2).vote_granted);
}

#[test]
fn two_candidates_of_one_term_do_not_both_win() {
    let mut net = cluster(&[0, 1, 2]);
    // Both stand in term 1; node 2 hears node 0 first.
    assert!(elect(&mut net, 0, &[2]));
    assert!(!elect(&mut net, 1, &[2]));
    assert_eq!(net[at(&net, 0)].node.role(), Role::Leader);
    // Node 1 moved on to term 1 as a candidate and got no second vote.
    assert_eq!(net[at(&net, 1)].node.role(), Role::Candidate);
    assert_eq!(net[at(&net, 0)].node.current_term(), net[at(&net, 1)].node.current_term());
}

#[test]
fn logs_match_after_replication() {
    let mut net = cluster(&[0, 1, 2]);
    assert!(elect(&mut net, 0, &[1, 2]));
    for i in 0..5 {
        net[0].write(put("k", &format!("{}", i)), 10 + i).unwrap();
    }
    sync(&mut net, 0, 1);
    sync(&mut net, 0, 2);
    assert_eq!(entries(&net[0].node).len(), 6);
    assert_eq!(entries(&net[1].node), entries(&net[0].node));
    assert_eq!(entries(&net[2].node), entries(&net[0].node));
    assert_eq!(net[0].node.commit_index(), 6);
    assert_eq!(net[1].node.commit_index(), 6);
}

#[test]
fn append_entries_answers() {
    let mut net = cluster(&[0, 1, 2]);
    assert!(elect(&mut net, 0, &[1, 2]));
    let noop = |index: u64, term: u64| LogEntry { index, term, payload: Payload::NoOp };
    // An earlier term is refused.
    assert_eq!(
        net[1].node.append_entries(2, 0, 0, 0, vec![], 0),
        AppendResult { term: 1, outcome: AppendOutcome::StaleTerm }
    );
    // The log has nothing at index 3.
    assert_eq!(
        net[1].node.append_entries(0, 1, 3, 1, vec![noop(4, 1)], 0),
        AppendResult { term: 1, outcome: AppendOutcome::LogMismatch }
    );
    // Entries that leave a gap are rejected.
    assert_eq!(
        net[1].node.append_entries(0, 1, 0, 0, vec![noop(2, 1)], 0),
        AppendResult { term: 1, outcome: AppendOutcome::Rejected }
    );
    // A leader does not take entries from another leader of its term.
    assert_eq!(
        net[0].node.append_entries(2, 1, 0, 0, vec![noop(1, 1)], 0),
        AppendResult { term: 1, outcome: AppendOutcome::Rejected }
    );
    assert_eq!(net[0].node.role(), Role::Leader);
    assert_eq!(
        net[1].node.append_entries(0, 1, 0, 0, vec![noop(1, 1), noop(2, 1)], 1),
        AppendResult { term: 1, outcome: AppendOutcome::Appended { match_index: 2 } }
    );
    assert_eq!(net[1].node.commit_index(), 1);
    // A committed entry is never replaced.
    assert_eq!(
        net[1].node.append_entries(2, 2, 0, 0, vec![noop(1, 2)], 0),
        AppendResult { term: 2, outcome: AppendOutcome::Rejected }
    );
    assert_eq!(entries(&net[1].node), vec![noop(1, 1), noop(2, 1)]);
    // An entry that was not committed is.
    assert_eq!(
        net[1].node.append_entries(2, 2, 1, 1, vec![noop(2, 2), noop(3, 2)], 5),
        AppendResult { term: 2, outcome: AppendOutcome::Appended { match_index: 3 } }
    );
    assert_eq!(entries(&net[1].node), vec![noop(1, 1), noop(2, 2), noop(3, 2)]);
    assert_eq!(net[1].node.commit_index(), 3);
}

#[test]
fn a_leader_commits_only_entries_of_its_own_term() {
    let mut net = cluster(&[0, 1, 2]);
    assert!(elect(&mut net, 0, &[1, 2]));
    net[0].write(put("x", "old"), 10).unwrap();
    // Node 1 gets the entries, but the leader does not hear the answer.
    let sent = entries(&net[0].node);
    assert_eq!(
        net[1].node.append_entries(0, 1, 0, 0, sent, 0).outcome,
        AppendOutcome::Appended { match_index: 2 }
    );
    assert_eq!(net[0].node.commit_index(), 0);
    // Node 1 wins term 2 with the vote of node 2.
    assert!(elect(&mut net, 1, &[2]));
    assert_eq!(net[1].node.current_term(), 2);
    // Its log: two entries of term 1 and its own empty entry of term 2.
    assert_eq!(net[1].node.store().last_index(), 3);
    assert_eq!(net[1].node.commit_index(), 0);
    // Once node 2 holds the entry of term 2, everything before it is committed with it.
    sync(&mut net, 1, 2);
    assert_eq!(net[1].node.commit_index(), 3);
}

#[test]
fn writes_of_a_cut_off_leader_do_not_show() {
    let mut net = cluster(&[0, 1, 2]);
    assert!(elect(&mut net, 0, &[1, 2]));
    net[0].write(put("a", "1"), 10).unwrap();
    sync(&mut net, 0, 1);
    sync(&mut net, 0, 2);
    net[0].node.apply_committed();

    // Node 0 is cut off and keeps proposing.
    let lost = net[0].write(put("a", "lost"), 11).unwrap();
    let lost_too = net[0].write(put("b", "lost"), 12).unwrap();
    assert!(net[0].node.commit_index() < lost);

    // The others elect node 1, which takes a write.
    assert!(elect(&mut net, 1, &[2]));
    let kept = net[1].write(put("a", "2"), 13).unwrap();
    sync(&mut net, 1, 2);
    assert_eq!(net[1].node.commit_index(), kept);
    net[1].node.apply_committed();
    net[2].node.apply_committed();
    let key = "a".to_string();
    for i in [1, 2] {
        let r = net[i].read(&key, 20, ReadMode::Local, 0).unwrap().unwrap();
        assert_eq!(r.value, b"2".to_vec());
        assert_eq!(r.version, 2);
        assert!(net[i].read(&"b".to_string(), 20, ReadMode::Local, 0).unwrap().is_none());
    }
    // The old leader cannot confirm a read: it never sees the write of term 2.
    let mut ticket = net[0].begin_read().unwrap();
    assert_eq!(net[0].read_status(&ticket), ReadStatus::Pending);

    // The partition heals: the old leader hears of term 2 and follows.
    sync(&mut net, 1, 0);
    assert_eq!(net[0].node.role(), Role::Follower);
    assert_eq!(net[0].node.current_term(), 2);
    assert_eq!(net[0].read_status(&ticket), ReadStatus::Lost);
    net[0].confirm_read(&mut ticket, 1, AppendResult { term: 2, outcome: AppendOutcome::StaleTerm });
    assert_eq!(net[0].read_status(&ticket), ReadStatus::Lost);
    assert_eq!(entries(&net[0].node), entries(&net[1].node));
    // Neither of its own proposals is in its log any more.
    assert!(lost < lost_too);
    for e in entries(&net[0].node) {
        if let Payload::ClientWrite { op: WriteOp::Put { value, .. }, .. } = e.payload {
            assert_ne!(value, b"lost".to_vec());
        }
    }
    net[0].node.apply_committed();
    let r = net[0].read(&key, 20, ReadMode::Local, 0).unwrap().unwrap();
    assert_eq!(r.value, b"2".to_vec());
    assert_eq!(r.version, 2);
    assert!(net[0].read(&"b".to_string(), 20, ReadMode::Local, 0).unwrap().is_none());
}

#[test]
fn a_leader_steps_down_for_a_later_term() {
    let mut net = cluster(&[0, 1, 2]);
    assert!(elect(&mut net, 0, &[1, 2]));
    net[0].node.handle_append_result(1, AppendResult { term: 5, outcome: AppendOutcome::StaleTerm });
    assert_eq!(net[0].node.role(), Role::Follower);
    assert_eq!(net[0].node.current_term(), 5);
    assert_eq!(net[0].node.leader_id(), None);
}

#[test]
fn a_fourth_node_joins() {
    let mut net = cluster(&[0, 1, 2]);
    assert!(elect(&mut net, 0, &[1, 2]));
    net[0].write(put("x", "1"), 10).unwrap();
    net[0].write(put("y", "2"), 11).unwrap();
    sync(&mut net, 0, 1);
    sync(&mut net, 0, 2);
    net[0].node.apply_committed();
    // The leader compacts its log: the new node will need the image.
    net[0].node.compact();
    assert_eq!(net[0].node.store().base_index(), 3);
    net[0].write(put("z", "3"), 12).unwrap();
    sync(&mut net, 0, 1);

    let mut newcomer = MetaStore::new(3, Membership::new(vec![0, 1, 2]).unwrap());
    newcomer.set_address(0, "10.0.0.0:9191".to_string());
    net.push(newcomer);
    assert_eq!(net[0].join(3, "10.0.0.3:9191".to_string()), Ok(()));
    assert_eq!(net[0].join(4, "10.0.0.4:9191".to_string()), Err(ClientError::Unavailable));
    assert_eq!(net[0].node.join(3), Err(MembershipError::InProgress));

    // Until the newcomer has caught up, the membership stays as it was.
    net[0].node.continue_change();
    assert!(!net[0].node.membership().is_voter(3));
    assert!(!net[3].node.membership().is_voter(3));
    assert!(net[3].node.election_timeout().is_none());
    assert_eq!(net[3].node.role(), Role::Follower);

    // It receives the image and then the entries after it.
    let l = at(&net, 0);
    match net[l].node.replicate(3) {
        Some(Replication::Append { .. }) => {}
        other => panic!("expected entries first, got {:?}", other),
    }
    sync(&mut net, 0, 3);
    assert_eq!(net[3].node.store().base_index(), 3);
    assert_eq!(net[3].node.store().last_index(), net[0].node.store().last_index());
    assert_eq!(net[3].node.last_applied(), 3);

    // First step: the union of the old and the new members.
    net[0].node.continue_change();
    assert!(net[0].node.membership().is_joint());
    assert_eq!(net[0].node.membership().members_after_change(), Some(&vec![0, 1, 2, 3]));
    sync(&mut net, 0, 1);
    sync(&mut net, 0, 3);
    net[0].node.apply_committed();
    // Second step: the new members alone.
    net[0].node.continue_change();
    assert!(!net[0].node.membership().is_joint());
    assert_eq!(net[0].node.membership().members(), &vec![0, 1, 2, 3]);
    for peer in [1, 2, 3] {
        sync(&mut net, 0, peer);
    }
    assert_eq!(net[0].node.commit_index(), net[0].node.store().last_index());
    for s in net.iter_mut() {
        s.node.apply_committed();
        assert_eq!(s.node.membership().members(), &vec![0, 1, 2, 3]);
    }
    let r = net[3].read(&"x".to_string(), 20, ReadMode::Local, 0).unwrap().unwrap();
    assert_eq!(r.value, b"1".to_vec());
    let r = net[3].read(&"z".to_string(), 20, ReadMode::Local, 0).unwrap().unwrap();
    assert_eq!(r.value, b"3".to_vec());

    // The new node now stands for election and can win: three of four votes.
    assert!(elect(&mut net, 3, &[1, 2]));
    assert_eq!(net[3].node.role(), Role::Leader);
    assert_eq!(net[3].node.current_term(), 2);
}

#[test]
fn a_node_leaves() {
    let mut net = cluster(&[0, 1, 2]);
    assert!(elect(&mut net, 0, &[1, 2]));
    assert_eq!(net[0].node.leave(9), Err(MembershipError::NotMember));
    assert_eq!(net[0].leave(2), Ok(()));
    assert!(net[0].node.membership().is_joint());
    assert_eq!(net[0].node.leave(1), Err(MembershipError::InProgress));
    sync(&mut net, 0, 1);
    net[0].node.apply_committed();
    net[0].node.continue_change();
    assert_eq!(net[0].node.membership().members(), &vec![0, 1]);
    sync(&mut net, 0, 1);
    assert_eq!(net[0].node.commit_index(), net[0].node.store().last_index());
    let mut one = cluster(&[5]);
    assert!(elect(&mut one, 5, &[]));
    assert_eq!(one[0].node.leave(5), Err(MembershipError::LastMember));
    assert_eq!(one[0].node.join(5), Err(MembershipError::AlreadyMember));
}

#[test]
fn a_leader_keeps_its_entries() {
    let mut net = cluster(&[0, 1, 2]);
    assert!(elect(&mut net, 0, &[1, 2]));
    net[0].write(put("x", "1"), 10).unwrap();
    let before = entries(&net[0].node);
    let noop = LogEntry { index: 1, term: 1, payload: Payload::ClientWrite { op: put("y", "2"), time: 1 } };
    net[0].node.append_entries(1, 1, 0, 0, vec![noop], 0);
    net[0].node.request_vote(1, 1, 9, 9);
    net[0].node.handle_append_result(1, AppendResult { term: 1, outcome: AppendOutcome::LogMismatch });
    net[0].node.election_timeout();
    assert_eq!(net[0].node.role(), Role::Leader);
    assert_eq!(entries(&net[0].node), before);
    net[0].write(put("x", "2"), 11).unwrap();
    assert_eq!(entries(&net[0].node)[..2], before[..]);
}

#[test]
fn a_node_starts_again_from_what_it_kept() {
    let mut net = cluster(&[0, 1, 2]);
    assert!(elect(&mut net, 0, &[1, 2]));
    net[0].write(put("x", "1"), 10).unwrap();
    sync(&mut net, 0, 1);
    net[1].node.apply_committed();
    let kept = net[1].node.store().get(0, u64::MAX);
    let hard_state = net[1].node.store().read_hard_state();
    let mut store = LogStore::new();
    store.append(kept).unwrap();
    store.write_hard_state(hard_state);
    let mut again = Node::restore(1, store, None, Membership::new(vec![0, 1, 2]).unwrap()).unwrap();
    assert_eq!(again.role(), Role::Follower);
    assert_eq!(again.current_term(), 1);
    assert_eq!(again.commit_index(), 0);
    assert_eq!(again.last_applied(), 0);
    assert_eq!(entries(&again), entries(&net[1].node));
    // It remembers its vote: no second candidate gets it in term 1.
    assert!(!again.request_vote(2, 1, 9, 9).vote_granted);
    let mut off = LogStore::new();
    off.reset(4, 1);
    assert!(Node::restore(1, off, None, Membership::single(1)).is_none());
}

#[test]
fn a_later_leader_holds_what_was_committed() {
    let mut net = cluster(&[0, 1, 2]);
    assert!(elect(&mut net, 0, &[1, 2]));
    let index = net[0].write(put("x", "kept"), 10).unwrap();
    sync(&mut net, 0, 1);
    assert_eq!(net[0].node.commit_index(), index);
    let committed = entries(&net[0].node);
    // Node 2 never heard of the entry: it cannot win against a node that holds it.
    assert!(!elect(&mut net, 2, &[1]));
    // Node 1 can, and the entry is in its log at its index.
    assert!(elect(&mut net, 1, &[2]));
    assert!(net[1].node.current_term() > 1);
    assert_eq!(entries(&net[1].node)[..committed.len()], committed[..]);
    sync(&mut net, 1, 2);
    sync(&mut net, 1, 0);
    for s in net.iter() {
        assert_eq!(entries(&s.node)[..committed.len()], committed[..]);
    }
}

#[test]
fn nodes_apply_the_same_entries() {
    let mut net = cluster(&[0, 1, 2]);
    assert!(elect(&mut net, 0, &[1, 2]));
    net[0].write(put("a", "1"), 10).unwrap();
    net[0]
        .write(
            WriteOp::CompareAndSwap { key: "a".to_string(), expected_version: 1, value: vec![2] },
            11,
        )
        .unwrap();
    net[0].write(WriteOp::Delete { key: "b".to_string() }, 12).unwrap();
    sync(&mut net, 0, 1);
    sync(&mut net, 0, 2);
    sync(&mut net, 0, 1);
    let on_leader = net[0].node.apply_committed();
    let on_one = net[1].node.apply_committed();
    let on_two = net[2].node.apply_committed();
    assert_eq!(on_leader.len(), 4);
    assert_eq!(on_one, on_leader);
    assert_eq!(on_two, on_leader);
    assert_eq!(
        on_leader,
        vec![
            (1, AppliedResult::NoOp),
            (2, AppliedResult::Written { version: 1 }),
            (3, AppliedResult::Written { version: 2 }),
            (4, AppliedResult::Deleted { existed: false }),
        ]
    );
    // Nothing is applied a second time.
    assert!(net[1].node.apply_committed().is_empty());
    for s in net.iter() {
        let r = s.read(&"a".to_string(), 20, ReadMode::Local, 0).unwrap().unwrap();
        assert_eq!(r.value, vec![2]);
        assert_eq!(r.version, 2);
    }
}

#[test]
fn repeated_messages_change_nothing() {
    let mut net = cluster(&[0, 1, 2]);
    let (request, _) = net[0].node.election_timeout().unwrap();
    let answer =
        net[1].node.request_vote(request.candidate_id, request.term, request.last_log_index, request.last_log_term);
    net[0].node.handle_vote_result(1, answer);
    assert_eq!(net[0].node.role(), Role::Leader);
    let log = entries(&net[0].node);
    // The same answer again, and an answer of an earlier term.
    net[0].node.handle_vote_result(1, answer);
    net[0].node.handle_vote_result(2, VoteResult { term: 0, vote_granted: true });
    assert_eq!(net[0].node.role(), Role::Leader);
    assert_eq!(net[0].node.current_term(), 1);
    assert_eq!(entries(&net[0].node), log);

    net[0].write(put("x", "1"), 10).unwrap();
    let sent = entries(&net[0].node);
    let first = net[1].node.append_entries(0, 1, 0, 0, sent, 0);
    let resent = entries(&net[0].node);
    let again = net[1].node.append_entries(0, 1, 0, 0, resent, 0);
    assert_eq!(first, again);
    assert_eq!(entries(&net[1].node), entries(&net[0].node));
    // An older, shorter request does not cut the log.
    let shorter = vec![entries(&net[0].node).remove(0)];
    assert_eq!(
        net[1].node.append_entries(0, 1, 0, 0, shorter, 0).outcome,
        AppendOutcome::Appended { match_index: 1 }
    );
    assert_eq!(entries(&net[1].node), entries(&net[0].node));
    net[0].node.handle_append_result(1, first);
    net[0].node.handle_append_result(1, again);
    assert_eq!(net[0].node.commit_index(), 2);
    // An answer that reports less does not move the leader back.
    net[0].node.handle_append_result(
        1,
        AppendResult { term: 1, outcome: AppendOutcome::Appended { match_index: 1 } },
    );
    assert_eq!(net[0].node.commit_index(), 2);
    match net[0].node.replicate(1) {
        Some(Replication::Append { prev_log_index, entries, .. }) => {
            assert_eq!(prev_log_index, 2);
            assert!(entries.is_empty());
        }
        other => panic!("expected a heartbeat, got {:?}", other),
    }
}

#[test]
fn a_full_log_takes_no_more() {
    let mut store = LogStore::new();
    store.reset(u64::MAX, 3);
    let image = Snapshot::from_parts(u64::MAX, 3, vec![], Membership::single(1)).unwrap();
    let mut node = Node::restore(1, store, Some(image), Membership::single(1)).unwrap();
    assert_eq!(node.commit_index(), u64::MAX);
    assert_eq!(node.last_applied(), u64::MAX);
    assert!(node.election_timeout().is_none());
    assert_eq!(node.role(), Role::Leader);
    assert_eq!(node.store().last_index(), u64::MAX);
    assert_eq!(node.propose(Payload::NoOp), Err(ProposeError::Unavailable));
    assert_eq!(node.join(2), Ok(()));
    node.continue_change();
    assert!(!node.membership().is_joint());
    let mut two = {
        let mut store = LogStore::new();
        store.reset(u64::MAX, 3);
        let members = Membership::new(vec![1, 2]).unwrap();
        let image = Snapshot::from_parts(u64::MAX, 3, vec![], Membership::new(vec![1, 2]).unwrap()).unwrap();
        Node::restore(1, store, Some(image), members).unwrap()
    };
    let (request, peers) = two.election_timeout().unwrap();
    assert_eq!(peers, vec![2]);
    assert_eq!(request.last_log_index, u64::MAX);
    assert_eq!(request.last_log_term, 3);
    two.handle_vote_result(2, VoteResult { term: 1, vote_granted: true });
    assert_eq!(two.role(), Role::Leader);
    assert_eq!(two.leave(2), Err(MembershipError::Unavailable));
    let mut facade = MetaStore::new(9, Membership::single(9));
    facade.node = two;
    assert_eq!(facade.write(put("x", "1"), 1), Err(ClientError::Unavailable));
    assert_eq!(facade.leave(2), Err(ClientError::Unavailable));
}

#[test]
fn a_term_that_cannot_be_passed_is_not_left() {
    let mut store = LogStore::new();
    store.write_hard_state(HardState { current_term: u64::MAX, voted_for: None });
    let mut node = Node::restore(1, store, None, Membership::single(1)).unwrap();
    assert!(node.election_timeout().is_none());
    assert_eq!(node.role(), Role::Follower);
    assert_eq!(node.current_term(), u64::MAX);
}

/// A leader that has applied three entries, and the image of its state.
fn leader_with_image() -> (Vec<MetaStore>, Snapshot) {
    let mut net = cluster(&[0, 1, 2]);
    assert!(elect(&mut net, 0, &[1, 2]));
    net[0].write(put("x", "1"), 10).unwrap();
    net[0].write(put("y", "2"), 11).unwrap();
    sync(&mut net, 0, 2);
    assert_eq!(net[0].node.apply_committed().len(), 3);
    let image = net[0].node.state_machine().snapshot();
    assert_eq!(image.last_included_index(), 3);
    assert_eq!(image.last_included_term(), 1);
    (net, image)
}

#[test]
fn an_image_of_an_earlier_term_is_refused() {
    let (mut net, image) = leader_with_image();
    assert_eq!(net[1].node.current_term(), 1);
    let answer = net[1].node.install_snapshot(0, 0, image);
    assert_eq!(answer, AppendResult { term: 1, outcome: AppendOutcome::StaleTerm });
    assert_eq!(net[1].node.store().base_index(), 0);
    assert_eq!(net[1].node.commit_index(), 0);
    assert_eq!(net[1].node.last_applied(), 0);
}

#[test]
fn a_leader_takes_no_image_in_its_own_term() {
    let (mut net, image) = leader_with_image();
    let before = entries(&net[0].node);
    let answer = net[0].node.install_snapshot(1, 1, image);
    assert_eq!(answer, AppendResult { term: 1, outcome: AppendOutcome::Rejected });
    assert_eq!(net[0].node.role(), Role::Leader);
    assert_eq!(entries(&net[0].node), before);
}

#[test]
fn an_image_that_reaches_no_further_changes_nothing() {
    let (mut net, image) = leader_with_image();
    let before = entries(&net[2].node);
    assert_eq!(net[2].node.commit_index(), 3);
    let answer = net[2].node.install_snapshot(0, 1, image);
    assert_eq!(answer, AppendResult { term: 1, outcome: AppendOutcome::Appended { match_index: 3 } });
    assert_eq!(net[2].node.store().base_index(), 0);
    assert_eq!(net[2].node.last_applied(), 0);
    assert_eq!(entries(&net[2].node), before);
}

#[test]
fn an_image_ahead_of_the_log_replaces_it() {
    let (mut net, image) = leader_with_image();
    assert_eq!(net[1].node.store().last_index(), 0);
    assert!(net[1].node.snapshot().is_none());
    let answer = net[1].node.install_snapshot(0, 1, image);
    assert_eq!(net[1].node.snapshot().unwrap().last_included_index(), 3);
    assert_eq!(answer, AppendResult { term: 1, outcome: AppendOutcome::Appended { match_index: 3 } });
    assert_eq!(net[1].node.store().base_index(), 3);
    assert_eq!(net[1].node.store().base_term(), 1);
    assert_eq!(net[1].node.store().last_index(), 3);
    assert!(entries(&net[1].node).is_empty());
    assert_eq!(net[1].node.commit_index(), 3);
    assert_eq!(net[1].node.last_applied(), 3);
    assert_eq!(net[1].node.leader_id(), Some(0));
    let r = net[1].read(&"y".to_string(), 20, ReadMode::Local, 0).unwrap().unwrap();
    assert_eq!(r.value, b"2".to_vec());
    assert_eq!(r.version, 1);
    // The entries after the image follow as usual.
    net[0].write(put("z", "3"), 12).unwrap();
    net[0].node.handle_append_result(1, answer);
    sync(&mut net, 0, 1);
    assert_eq!(net[1].node.store().last_index(), 4);
    assert_eq!(net[1].node.apply_committed(), vec![(4, AppliedResult::Written { version: 1 })]);
}

#[test]
fn an_image_within_the_log_keeps_what_follows() {
    let (mut net, image) = leader_with_image();
    net[0].write(put("z", "3"), 12).unwrap();
    let all = entries(&net[0].node);
    assert_eq!(all.len(), 4);
    let kept = entries(&net[0].node).pop().unwrap();
    let answer = net[1].node.append_entries(0, 1, 0, 0, all, 0);
    assert_eq!(answer, AppendResult { term: 1, outcome: AppendOutcome::Appended { match_index: 4 } });
    assert_eq!(net[1].node.commit_index(), 0);
    let answer = net[1].node.install_snapshot(0, 1, image);
    assert_eq!(answer, AppendResult { term: 1, outcome: AppendOutcome::Appended { match_index: 3 } });
    assert_eq!(net[1].node.store().base_index(), 3);
    assert_eq!(net[1].node.store().last_index(), 4);
    assert_eq!(entries(&net[1].node), vec![kept]);
    assert_eq!(net[1].node.commit_index(), 3);
    assert_eq!(net[1].node.last_applied(), 3);
    let r = net[1].read(&"x".to_string(), 20, ReadMode::Local, 0).unwrap().unwrap();
    assert_eq!(r.value, b"1".to_vec());
}

#[test]
fn an_image_of_a_later_term_is_followed() {
    let (mut net, image) = leader_with_image();
    let answer = net[1].node.install_snapshot(2, 4, image);
    assert_eq!(answer, AppendResult { term: 4, outcome: AppendOutcome::Appended { match_index: 3 } });
    assert_eq!(net[1].node.current_term(), 4);
    assert_eq!(net[1].node.role(), Role::Follower);
    assert_eq!(net[1].node.leader_id(), Some(2));
    assert_eq!(net[1].node.store().read_hard_state(), HardState { current_term: 4, voted_for: None });
}
