//! The consensus core of one node: leader election, log replication and
//! the commit index. Every event that reaches the node is one call; the
//! node after the call is what `NodeModel` says.

use crate::metasrv::id_map::IdMap;
use crate::metasrv::log_store::LogStore;
use crate::metasrv::membership::{contains_id, ChangeError, Membership, NodeId};
use crate::metasrv::messages::{
    AppendOutcome, AppendResult, MembershipError, ProposeError, VoteRequest, VoteResult,
};
use crate::metasrv::node_model::{
    apply_upto, change_error, first_conflict, follows, latest_config, lemma_merged_log,
    ChangeModel, NodeModel, ReplicationModel, Role,
};
use crate::metasrv::state_machine::{AppliedResult, Snapshot, StateMachine};
use crate::metasrv::types::{entries_model, EntryModel, HardState, LogEntry, Payload};
use vstd::prelude::*;

verus! {

/// A change of membership that a leader is carrying out.
#[derive(Debug)]
pub struct Change {
    pub joint: Membership,
    pub target: Membership,
    pub learner: Option<NodeId>,
    pub joint_index: Option<u64>,
}

impl View for Change {
    type V = ChangeModel;

    open spec fn view(&self) -> ChangeModel {
        ChangeModel {
            joint: self.joint@,
            target: self.target@,
            learner: self.learner,
            joint_index: self.joint_index,
        }
    }
}

/// A node of the cluster.
#[derive(Debug)]
pub struct Node {
    id: NodeId,
    role: Role,
    store: LogStore,
    commit_index: u64,
    state_machine: StateMachine,
    snapshot: Option<Snapshot>,
    base_membership: Membership,
    membership: Membership,
    leader_id: Option<NodeId>,
    votes: Vec<NodeId>,
    next_index: IdMap<u64>,
    match_index: IdMap<u64>,
    change: Option<Change>,
}

impl View for Node {
    type V = NodeModel;

    closed spec fn view(&self) -> NodeModel {
        NodeModel {
            id: self.id,
            role: self.role,
            hard_state: self.store@.hard_state,
            log: self.store@.log,
            commit_index: self.commit_index,
            state: self.state_machine@,
            snapshot: match self.snapshot {
                Some(s) => Some(s@),
                None => None,
            },
            base_membership: self.base_membership@,
            membership: self.membership@,
            leader_id: self.leader_id,
            votes: self.votes@.to_set(),
            next_index: self.next_index@,
            match_index: self.match_index@,
            change: match self.change {
                Some(c) => Some(c@),
                None => None,
            },
        }
    }
}

impl Node {
    /// The node's parts fit together as `NodeModel::wf` says.
    pub closed spec fn wf(&self) -> bool {
        &&& self@.wf()
        &&& self.store.wf()
        &&& self.state_machine.wf()
        &&& self.snapshot matches Some(s) ==> s.wf()
        &&& self.next_index.wf()
        &&& self.match_index.wf()
    }

    /// A well-formed node has a well-formed model.
    pub proof fn lemma_wf(&self)
        requires
            self.wf(),
        ensures
            self@.wf(),
    {
    }

    /// A node that starts with an empty log as a follower in term 0, in a
    /// cluster of the given membership.
    pub fn new(id: NodeId, membership: Membership) -> (node: Node)
        ensures
            node.wf(),
            node@ == NodeModel::initial(id, membership@),
    {
        let node = Node {
            id,
            role: Role::Follower,
            store: LogStore::new(),
            commit_index: 0,
            state_machine: StateMachine::new(membership.clone_membership()),
            snapshot: None,
            base_membership: membership.clone_membership(),
            membership,
            leader_id: None,
            votes: Vec::new(),
            next_index: IdMap::new(),
            match_index: IdMap::new(),
            change: None,
        };
        proof {
            node.state_machine.lemma_wf();
            assert(node.votes@.to_set() =~= Set::<NodeId>::empty());
            assert(node@ =~= NodeModel::initial(id, membership@));
        }
        node
    }

    /// A node that starts again with the store and the image that it kept
    /// on disk, in a cluster that started with the given membership. `None`
    /// if the image is not the state at the base of the log.
    pub fn restore(
        id: NodeId,
        store: LogStore,
        snapshot: Option<Snapshot>,
        membership: Membership,
    ) -> (r: Option<Node>)
        requires
            store.wf(),
            snapshot matches Some(s) ==> s.wf(),
        ensures
            match r {
                Some(node) => {
                    &&& node.wf()
                    &&& NodeModel::restorable(
                        store@.log,
                        match snapshot {
                            Some(s) => Some(s@),
                            None => None,
                        },
                    )
                    &&& node@ == NodeModel::restore(
                        id,
                        store@.hard_state,
                        store@.log,
                        match snapshot {
                            Some(s) => Some(s@),
                            None => None,
                        },
                        membership@,
                    )
                },
                None => !NodeModel::restorable(
                    store@.log,
                    match snapshot {
                        Some(s) => Some(s@),
                        None => None,
                    },
                ),
            },
    {
        let fits = match &snapshot {
            Some(image) => image.last_included_index() == store.base_index()
                && image.last_included_term() == store.base_term(),
            None => store.base_index() == 0 && store.base_term() == 0,
        };
        if !fits {
            return None;
        }
        let (state_machine, base_membership, kept) = match snapshot {
            Some(image) => {
                let base = image.membership().clone_membership();
                let mut sm = StateMachine::new(membership);
                let copy = image.clone_snapshot();
                sm.install_snapshot(image);
                (sm, base, Some(copy))
            },
            None => (StateMachine::new(membership.clone_membership()), membership, None),
        };
        let in_force = compute_membership(&store, &base_membership);
        let commit_index = store.base_index();
        let node = Node {
            id,
            role: Role::Follower,
            store,
            commit_index,
            state_machine,
            snapshot: kept,
            base_membership,
            membership: in_force,
            leader_id: None,
            votes: Vec::new(),
            next_index: IdMap::new(),
            match_index: IdMap::new(),
            change: None,
        };
        proof {
            node.state_machine.lemma_wf();
            assert(node.votes@.to_set() =~= Set::<NodeId>::empty());
            assert(node@ =~= NodeModel::restore(
                id,
                store@.hard_state,
                store@.log,
                match snapshot {
                    Some(s) => Some(s@),
                    None => None,
                },
                membership@,
            ));
        }
        Some(node)
    }

    /// The node's id.
    pub fn id(&self) -> (id: NodeId)
        ensures
            id == self@.id,
    {
        self.id
    }

    /// The part the node plays.
    pub fn role(&self) -> (r: Role)
        ensures
            r == self@.role,
    {
        self.role
    }

    /// The latest term that the node has seen.
    pub fn current_term(&self) -> (t: u64)
        ensures
            t == self@.term(),
    {
        self.store.read_hard_state().current_term
    }

    /// The leader of the current term, as far as the node knows.
    pub fn leader_id(&self) -> (l: Option<NodeId>)
        ensures
            l == self@.leader_id,
    {
        self.leader_id
    }

    /// The highest index that the node knows to be committed.
    pub fn commit_index(&self) -> (i: u64)
        ensures
            i == self@.commit_index,
    {
        self.commit_index
    }

    /// The index of the last entry that the node applied.
    pub fn last_applied(&self) -> (i: u64)
        ensures
            i == self@.state.last_applied,
    {
        self.state_machine.last_applied()
    }

    /// The membership in force.
    pub fn membership(&self) -> (m: &Membership)
        ensures
            m@ == self@.membership,
    {
        &self.membership
    }

    /// The node that is catching up with the log before it becomes a
    /// member, if the leader is adding one.
    pub fn learner(&self) -> (l: Option<NodeId>)
        ensures
            l == match self@.change {
                Some(c) => c.learner,
                None => None,
            },
    {
        match &self.change {
            Some(c) => c.learner,
            None => None,
        }
    }

    /// The log and the hard state, as they are to be kept on disk.
    pub fn store(&self) -> (s: &LogStore)
        ensures
            s@.log == self@.log,
            s@.hard_state == self@.hard_state,
            self.wf() ==> s.wf(),
    {
        &self.store
    }

    /// The latest image of the state machine, if the node has one.
    pub fn snapshot(&self) -> (r: Option<&Snapshot>)
        ensures
            match r {
                Some(s) => self@.snapshot == Some(s@) && (self.wf() ==> s.wf()),
                None => self@.snapshot is None,
            },
    {
        self.snapshot.as_ref()
    }

    /// The state machine.
    pub fn state_machine(&self) -> (sm: &StateMachine)
        ensures
            sm@ == self@.state,
            self.wf() ==> sm.wf(),
    {
        &self.state_machine
    }
}

/// The membership that the latest entry of the log carries, or `base` if
/// no entry carries one.
fn compute_membership(store: &LogStore, base: &Membership) -> (r: Membership)
    requires
        store.wf(),
    ensures
        r@ == latest_config(store@.log.entries, base@),
{
    let first = store.base_index();
    let mut index = store.last_index();
    let ghost entries = store@.log.entries;
    proof {
        assert(entries.take(entries.len() as int) =~= entries);
    }
    while index > first
        invariant
            store.wf(),
            first == store@.log.base_index,
            entries == store@.log.entries,
            first <= index <= store@.log.last_index(),
            latest_config(entries, base@) == latest_config(entries.take(index - first), base@),
        decreases index - first,
    {
        proof {
            assert(entries.take(index - first).drop_last() =~= entries.take(index - first - 1));
            assert(entries.take(index - first).last() == store@.log.at(index as int));
        }
        match store.entry(index) {
            Some(entry) => {
                match &entry.payload {
                    Payload::ConfigChange(m) => {
                        return m.clone_membership();
                    },
                    _ => {},
                }
            },
            None => {},
        }
        index -= 1;
    }
    base.clone_membership()
}

impl Node {
    /// The index up to which a peer's log is known to agree with this
    /// node's.
    fn match_of(&self, peer: NodeId) -> (m: u64)
        requires
            self.wf(),
        ensures
            m == self@.match_of(peer),
    {
        match self.match_index.get(peer) {
            Some(m) => *m,
            None => 0,
        }
    }

    /// The index of the next entry to send to a peer.
    fn next_of(&self, peer: NodeId) -> (n: u64)
        requires
            self.wf(),
        ensures
            n == self@.next_of(peer),
    {
        match self.next_index.get(peer) {
            Some(n) => *n,
            None => {
                let last = self.store.last_index();
                if last < u64::MAX {
                    last + 1
                } else {
                    u64::MAX
                }
            },
        }
    }

    /// Whether a voter's log is known to hold the entry at `index`.
    fn has_acked(&self, voter: NodeId, index: u64) -> (b: bool)
        requires
            self.wf(),
        ensures
            b == self@.has_acked(voter, index as int),
    {
        if voter == self.id {
            index <= self.store.last_index()
        } else {
            self.match_of(voter) >= index
        }
    }

    /// Adds to `out` the nodes of `group` whose logs are known to hold the
    /// entry at `index`.
    fn push_acked(&self, group: &Vec<NodeId>, index: u64, out: &mut Vec<NodeId>)
        requires
            self.wf(),
        ensures
            forall|v: NodeId| #[trigger]
                final(out)@.contains(v) <==> (old(out)@.contains(v) || (group@.contains(v)
                    && self@.has_acked(v, index as int))),
    {
        let mut i: usize = 0;
        proof {
            assert(group@.take(0) =~= Seq::<NodeId>::empty());
        }
        while i < group.len()
            invariant
                0 <= i <= group.len(),
                self.wf(),
                forall|v: NodeId| #[trigger]
                    out@.contains(v) <==> (old(out)@.contains(v) || (group@.take(i as int).contains(
                        v,
                    ) && self@.has_acked(v, index as int))),
            decreases group.len() - i,
        {
            let voter = group[i];
            let ghost before = out@;
            let acked = self.has_acked(voter, index);
            if acked {
                out.push(voter);
            }
            proof {
                let shorter = group@.take(i as int);
                let longer = group@.take(i + 1);
                assert(longer =~= shorter.push(voter));
                assert forall|v: NodeId| longer.contains(v) <==> (shorter.contains(v) || v
                    == voter) by {
                    if shorter.contains(v) {
                        let j = choose|j: int| 0 <= j < shorter.len() && shorter[j] == v;
                        assert(longer[j] == v);
                    }
                    if v == voter {
                        assert(longer[i as int] == v);
                    }
                }
                assert forall|v: NodeId| out@.contains(v) <==> (before.contains(v) || (acked && v
                    == voter)) by {
                    if before.contains(v) {
                        let j = choose|j: int| 0 <= j < before.len() && before[j] == v;
                        assert(out@[j] == v);
                    }
                    if acked && v == voter {
                        assert(out@[before.len() as int] == v);
                    }
                }
                assert forall|v: NodeId| #[trigger]
                    out@.contains(v) <==> (old(out)@.contains(v) || (longer.contains(v)
                        && self@.has_acked(v, index as int))) by {
                    assert(before.contains(v) <==> (old(out)@.contains(v) || (shorter.contains(v)
                        && self@.has_acked(v, index as int))));
                    assert(longer.contains(v) <==> (shorter.contains(v) || v == voter));
                    assert(out@.contains(v) <==> (before.contains(v) || (acked && v == voter)));
                }
            }
            i += 1;
            assert(group@.take(i as int) == group@.take((i - 1) + 1));
        }
        proof {
            assert(group@.take(group@.len() as int) =~= group@);
        }
    }

    /// The voters whose logs are known to hold the entry at `index`.
    fn collect_acks(&self, index: u64) -> (acks: Vec<NodeId>)
        requires
            self.wf(),
        ensures
            acks@.to_set() == self@.acks(index as int),
    {
        let mut acks: Vec<NodeId> = Vec::new();
        let ghost none = acks@;
        self.push_acked(self.membership.members(), index, &mut acks);
        let ghost first = acks@;
        match self.membership.members_after_change() {
            Some(after) => {
                self.push_acked(after, index, &mut acks);
            },
            None => {},
        }
        proof {
            assert forall|v: NodeId| acks@.to_set().contains(v) <==> self@.acks(
                index as int,
            ).contains(v) by {
                assert(acks@.to_set().contains(v) == acks@.contains(v));
                assert(!none.contains(v));
                assert(first.contains(v) <==> (none.contains(v) || (self@.membership.members.contains(
                    v,
                ) && self@.has_acked(v, index as int))));
                match self@.membership.members_after_change {
                    Some(after) => {
                        assert(acks@.contains(v) <==> (first.contains(v) || (after.contains(v)
                            && self@.has_acked(v, index as int))));
                    },
                    None => {},
                }
            }
            assert(acks@.to_set() =~= self@.acks(index as int));
        }
        acks
    }

    /// Moves the commit index of a leader as far as a quorum and its own
    /// term allow.
    fn advance_commit(&mut self)
        requires
            old(self).wf(),
        ensures
            final(self).wf(),
            final(self)@ == old(self)@.advance_commit(),
    {
        if self.role != Role::Leader {
            return ;
        }
        let term = self.current_term();
        let mut index = self.store.last_index();
        let mut found = false;
        while index > self.commit_index && !found
            invariant
                self.wf(),
                *self == *old(self),
                term == self@.term(),
                self@.commit_index <= index <= self@.log.last_index(),
                self@.highest_committable(self@.log.last_index()) == self@.highest_committable(
                    index as int,
                ),
                found ==> self@.committable(index as int),
            decreases index - self.commit_index + if found { 0int } else { 1int },
        {
            let mut quorum = false;
            if self.store.term_at(index) == Some(term) {
                let acks = self.collect_acks(index);
                quorum = self.membership.is_quorum(&acks);
            }
            if quorum {
                found = true;
            } else {
                index -= 1;
            }
        }
        self.commit_index = index;
        proof {
            assert(final(self)@ =~= old(self)@.advance_commit());
        }
    }
}

/// The set of a list with one more element is the set of the list with
/// that element added.
pub proof fn lemma_push_to_set(s: Seq<NodeId>, x: NodeId)
    ensures
        s.push(x).to_set() == s.to_set().insert(x),
        s.contains(x) ==> s.to_set().insert(x) == s.to_set(),
{
    assert forall|v: NodeId| s.push(x).to_set().contains(v) == s.to_set().insert(x).contains(
        v,
    ) by {
        if s.contains(v) {
            let j = choose|j: int| 0 <= j < s.len() && s[j] == v;
            assert(s.push(x)[j] == v);
        }
        if v == x {
            assert(s.push(x)[s.len() as int] == v);
        }
    }
    assert(s.push(x).to_set() =~= s.to_set().insert(x));
    if s.contains(x) {
        assert(s.to_set().insert(x) =~= s.to_set());
    }
}

impl Node {
    /// Makes the node a follower in the given term, without a vote cast.
    fn step_down(&mut self, term: u64)
        requires
            old(self).wf(),
        ensures
            final(self).wf(),
            final(self)@ == old(self)@.step_down(term),
    {
        self.role = Role::Follower;
        self.store.write_hard_state(HardState { current_term: term, voted_for: None });
        self.leader_id = None;
        self.votes = Vec::new();
        self.next_index = IdMap::new();
        self.match_index = IdMap::new();
        self.change = None;
        proof {
            assert(self.votes@.to_set() =~= Set::<NodeId>::empty());
            assert(final(self)@ =~= old(self)@.step_down(term));
        }
    }

    /// Makes the node a follower of the given leader in its own term.
    fn follow(&mut self, leader_id: NodeId)
        requires
            old(self).wf(),
        ensures
            final(self).wf(),
            final(self)@ == old(self)@.follow(leader_id),
    {
        self.role = Role::Follower;
        self.leader_id = Some(leader_id);
        self.votes = Vec::new();
        self.next_index = IdMap::new();
        self.match_index = IdMap::new();
        self.change = None;
        proof {
            assert(self.votes@.to_set() =~= Set::<NodeId>::empty());
            assert(final(self)@ =~= old(self)@.follow(leader_id));
        }
    }

    /// Adds an entry of the node's term at the end of its log and moves
    /// the commit index as far as that allows.
    fn append_as_leader(&mut self, payload: Payload)
        requires
            old(self).wf(),
            old(self)@.log.last_index() < u64::MAX,
        ensures
            final(self).wf(),
            final(self)@ == old(self)@.append_as_leader(payload@),
    {
        let index = self.store.last_index() + 1;
        let term = self.current_term();
        let mut entries: Vec<LogEntry> = Vec::new();
        entries.push(LogEntry { index, term, payload });
        proof {
            assert(entries_model(entries@) =~= seq![EntryModel { index, term, payload: payload@ }]);
        }
        let taken = self.store.append(entries);
        self.membership = compute_membership(&self.store, &self.base_membership);
        proof {
            assert(taken is Ok);
            let grown = old(self)@.with_log(
                old(self)@.log.append(seq![EntryModel { index, term, payload: payload@ }]),
            );
            assert(self@ =~= grown);
        }
        self.advance_commit();
    }

    /// The second step of a change that an earlier leader left unfinished.
    fn inherited_change(&self) -> (c: Option<Change>)
        requires
            self.wf(),
        ensures
            match c {
                Some(change) => self@.inherited_change() == Some(change@),
                None => self@.inherited_change() is None,
            },
    {
        match self.membership.members_after_change() {
            Some(after) => {
                self.membership.check();
                let target = match Membership::new(crate::metasrv::membership::clone_ids(after)) {
                    Some(t) => t,
                    None => {
                        return None;
                    },
                };
                Some(
                    Change {
                        joint: self.membership.clone_membership(),
                        target,
                        learner: None,
                        joint_index: Some(self.store.last_index()),
                    },
                )
            },
            None => None,
        }
    }

    /// Makes a candidate the leader of its term.
    fn become_leader(&mut self)
        requires
            old(self).wf(),
        ensures
            final(self).wf(),
            final(self)@ == old(self)@.become_leader(),
    {
        let change = self.inherited_change();
        self.role = Role::Leader;
        self.leader_id = Some(self.id);
        self.next_index = IdMap::new();
        self.match_index = IdMap::new();
        self.change = change;
        if self.store.last_index() < u64::MAX {
            self.append_as_leader(Payload::NoOp);
        }
    }

    /// Counts a vote for the node, and makes it the leader once a quorum
    /// has voted for it.
    fn with_vote(&mut self, from: NodeId)
        requires
            old(self).wf(),
        ensures
            final(self).wf(),
            final(self)@ == old(self)@.with_vote(from),
    {
        proof {
            lemma_push_to_set(self.votes@, from);
        }
        if !contains_id(&self.votes, from) {
            self.votes.push(from);
        }
        if self.membership.is_quorum(&self.votes) {
            self.become_leader();
        }
    }

    /// The voters other than the node itself, each once.
    pub fn peers(&self) -> (peers: Vec<NodeId>)
        requires
            self.wf(),
        ensures
            peers@.no_duplicates(),
            forall|v: NodeId| #[trigger]
                peers@.contains(v) <==> (self@.membership.is_voter(v) && v != self@.id),
    {
        let mut peers: Vec<NodeId> = Vec::new();
        self.push_peers(self.membership.members(), &mut peers);
        let ghost first = peers@;
        match self.membership.members_after_change() {
            Some(after) => {
                self.push_peers(after, &mut peers);
            },
            None => {},
        }
        proof {
            assert forall|v: NodeId| #[trigger]
                peers@.contains(v) <==> (self@.membership.is_voter(v) && v != self@.id) by {
                assert(first.contains(v) <==> (Seq::<NodeId>::empty().contains(v) || (
                self@.membership.members.contains(v) && v != self@.id)));
                match self@.membership.members_after_change {
                    Some(after) => {
                        assert(peers@.contains(v) <==> (first.contains(v) || (after.contains(v) && v
                            != self@.id)));
                    },
                    None => {},
                }
            }
        }
        peers
    }

    /// Adds to `out` the nodes of `group` other than the node itself that
    /// `out` does not hold yet.
    fn push_peers(&self, group: &Vec<NodeId>, out: &mut Vec<NodeId>)
        requires
            old(out)@.no_duplicates(),
        ensures
            final(out)@.no_duplicates(),
            forall|v: NodeId| #[trigger]
                final(out)@.contains(v) <==> (old(out)@.contains(v) || (group@.contains(v) && v
                    != self.id)),
    {
        let mut i: usize = 0;
        proof {
            assert(group@.take(0) =~= Seq::<NodeId>::empty());
        }
        while i < group.len()
            invariant
                0 <= i <= group.len(),
                out@.no_duplicates(),
                forall|v: NodeId| #[trigger]
                    out@.contains(v) <==> (old(out)@.contains(v) || (group@.take(i as int).contains(
                        v,
                    ) && v != self.id)),
            decreases group.len() - i,
        {
            let peer = group[i];
            let ghost before = out@;
            let fresh = peer != self.id && !contains_id(out, peer);
            if fresh {
                out.push(peer);
            }
            proof {
                let shorter = group@.take(i as int);
                let longer = group@.take(i + 1);
                assert(longer =~= shorter.push(peer));
                assert forall|v: NodeId| longer.contains(v) <==> (shorter.contains(v) || v
                    == peer) by {
                    if shorter.contains(v) {
                        let j = choose|j: int| 0 <= j < shorter.len() && shorter[j] == v;
                        assert(longer[j] == v);
                    }
                    if v == peer {
                        assert(longer[i as int] == v);
                    }
                }
                assert forall|v: NodeId| out@.contains(v) <==> (before.contains(v) || (fresh && v
                    == peer)) by {
                    if before.contains(v) {
                        let j = choose|j: int| 0 <= j < before.len() && before[j] == v;
                        assert(out@[j] == v);
                    }
                    if fresh && v == peer {
                        assert(out@[before.len() as int] == v);
                    }
                }
                assert forall|v: NodeId| #[trigger]
                    out@.contains(v) <==> (old(out)@.contains(v) || (longer.contains(v) && v
                        != self.id)) by {
                    assert(before.contains(v) <==> (old(out)@.contains(v) || (shorter.contains(v)
                        && v != self.id)));
                    assert(longer.contains(v) <==> (shorter.contains(v) || v == peer));
                    assert(out@.contains(v) <==> (before.contains(v) || (fresh && v == peer)));
                }
            }
            i += 1;
            assert(group@.take(i as int) == group@.take((i - 1) + 1));
        }
        proof {
            assert(group@.take(group@.len() as int) =~= group@);
        }
    }

    /// The election timer fired. A node that is no leader, has a vote and
    /// can enter a later term becomes a candidate of the next term with its
    /// own vote, and the leader at once if that vote is a quorum. While it
    /// is a candidate, the request that it is to send and the peers to send
    /// it to are returned.
    pub fn election_timeout(&mut self) -> (r: Option<(VoteRequest, Vec<NodeId>)>)
        requires
            old(self).wf(),
        ensures
            final(self).wf(),
            final(self)@ == old(self)@.election_timeout(),
            match r {
                Some((request, peers)) => {
                    &&& old(self)@.can_stand()
                    &&& final(self)@.role == Role::Candidate
                    &&& request == final(self)@.vote_request()
                    &&& peers@.no_duplicates()
                    &&& forall|v: NodeId| #[trigger]
                        peers@.contains(v) <==> (final(self)@.membership.is_voter(v) && v
                            != final(self)@.id)
                },
                None => !old(self)@.can_stand() || final(self)@.role != Role::Candidate,
            },
    {
        let term = self.current_term();
        if self.role == Role::Leader || term == u64::MAX || !self.membership.is_voter(self.id) {
            return None;
        }
        self.step_down(term);
        self.role = Role::Candidate;
        self.store.write_hard_state(HardState { current_term: term + 1, voted_for: Some(self.id) });
        proof {
            assert(self@ =~= (NodeModel {
                role: Role::Candidate,
                hard_state: HardState {
                    current_term: (old(self)@.term() + 1) as u64,
                    voted_for: Some(old(self)@.id),
                },
                ..old(self)@.step_down(old(self)@.term())
            }));
        }
        self.with_vote(self.id);
        match self.role {
            Role::Candidate => {
                let request = VoteRequest {
                    term: self.current_term(),
                    candidate_id: self.id,
                    last_log_index: self.store.last_index(),
                    last_log_term: self.store.last_term(),
                };
                Some((request, self.peers()))
            },
            _ => None,
        }
    }

    /// A candidate asks for the node's vote. The vote is given if and only
    /// if the request's term is not behind the node's, the node has not
    /// voted for another candidate in that term, and the candidate's log is
    /// at least as up to date as the node's. The hard state is changed
    /// before the answer is returned.
    pub fn request_vote(
        &mut self,
        candidate_id: NodeId,
        term: u64,
        last_log_index: u64,
        last_log_term: u64,
    ) -> (r: VoteResult)
        requires
            old(self).wf(),
        ensures
            final(self).wf(),
            (final(self)@, r) == old(self)@.request_vote(
                candidate_id,
                term,
                last_log_index,
                last_log_term,
            ),
    {
        let current = self.current_term();
        if term < current {
            return VoteResult { term: current, vote_granted: false };
        }
        if term > current {
            self.step_down(term);
        }
        let voted_for = self.store.read_hard_state().voted_for;
        let free = match voted_for {
            None => true,
            Some(v) => v == candidate_id,
        };
        let my_last_term = self.store.last_term();
        let my_last_index = self.store.last_index();
        let log_ok = last_log_term > my_last_term || (last_log_term == my_last_term
            && last_log_index >= my_last_index);
        if free && log_ok {
            self.store.write_hard_state(
                HardState { current_term: term, voted_for: Some(candidate_id) },
            );
            proof {
                assert(final(self)@ =~= old(self)@.request_vote(
                    candidate_id,
                    term,
                    last_log_index,
                    last_log_term,
                ).0);
            }
            VoteResult { term, vote_granted: true }
        } else {
            VoteResult { term, vote_granted: false }
        }
    }

    /// A peer answered the node's request for a vote.
    pub fn handle_vote_result(&mut self, from: NodeId, result: VoteResult)
        requires
            old(self).wf(),
        ensures
            final(self).wf(),
            final(self)@ == old(self)@.handle_vote_result(from, result),
    {
        let current = self.current_term();
        if result.term > current {
            self.step_down(result.term);
        } else if self.role == Role::Candidate && result.term == current && result.vote_granted
            && self.membership.is_voter(from) {
            self.with_vote(from);
        }
    }

    /// A client's or the node's own proposal. Only a leader takes it; it
    /// adds the entry to its own log and returns the entry's index without
    /// waiting for the entry to be committed.
    pub fn propose(&mut self, payload: Payload) -> (r: Result<u64, ProposeError>)
        requires
            old(self).wf(),
        ensures
            final(self).wf(),
            (final(self)@, r) == old(self)@.propose(payload@),
    {
        if self.role != Role::Leader {
            return Err(ProposeError::NotLeader { leader_hint: self.leader_id });
        }
        let last = self.store.last_index();
        if last >= u64::MAX {
            return Err(ProposeError::Unavailable);
        }
        self.append_as_leader(payload);
        Ok(last + 1)
    }
}

/// What a leader sends to a peer to bring the peer's log up to its own.
#[derive(Debug)]
pub enum Replication {
    /// The entries from the peer's next index on.
    Append {
        term: u64,
        leader_id: NodeId,
        prev_log_index: u64,
        prev_log_term: u64,
        entries: Vec<LogEntry>,
        leader_commit: u64,
    },
    /// The image of the state machine, where the entries that the peer
    /// needs were compacted away.
    Snapshot { term: u64, leader_id: NodeId, snapshot: Snapshot },
}

impl View for Replication {
    type V = ReplicationModel;

    open spec fn view(&self) -> ReplicationModel {
        match self {
            Replication::Append {
                term,
                leader_id,
                prev_log_index,
                prev_log_term,
                entries,
                leader_commit,
            } => ReplicationModel::Append {
                term: *term,
                leader_id: *leader_id,
                prev_log_index: *prev_log_index,
                prev_log_term: *prev_log_term,
                entries: entries_model(entries@),
                leader_commit: *leader_commit,
            },
            Replication::Snapshot { term, leader_id, snapshot } => ReplicationModel::Snapshot {
                term: *term,
                leader_id: *leader_id,
                image: snapshot@,
            },
        }
    }
}

/// Whether the entries follow the index `prev` without a gap and without
/// running past the largest index.
fn check_follows(entries: &Vec<LogEntry>, prev: u64) -> (b: bool)
    ensures
        b == (follows(entries_model(entries@), prev) && prev + entries@.len() <= u64::MAX),
{
    let mut i: usize = 0;
    while i < entries.len()
        invariant
            0 <= i <= entries.len(),
            prev + i <= u64::MAX,
            forall|k: int| 0 <= k < i ==> (#[trigger] entries@[k]).index == prev + 1 + k,
        decreases entries.len() - i,
    {
        if prev > u64::MAX - 1 - (i as u64) {
            proof {
                if follows(entries_model(entries@), prev) {
                    assert(entries_model(entries@)[i as int].index == prev + 1 + i);
                }
            }
            return false;
        }
        if entries[i].index != prev + 1 + (i as u64) {
            proof {
                assert(entries_model(entries@)[i as int].index == entries@[i as int].index);
            }
            return false;
        }
        i += 1;
    }
    proof {
        assert forall|k: int| 0 <= k < entries@.len() implies (#[trigger] entries_model(
            entries@,
        )[k]).index == prev + 1 + k by {
            assert(entries@[k].index == prev + 1 + k);
        }
    }
    true
}

/// The position of the first entry that the log does not hold with the
/// same term.
fn find_conflict(store: &LogStore, entries: &Vec<LogEntry>) -> (k: usize)
    requires
        store.wf(),
    ensures
        k == first_conflict(store@.log, entries_model(entries@), 0),
        k <= entries@.len(),
{
    let mut i: usize = 0;
    while i < entries.len()
        invariant
            0 <= i <= entries.len(),
            store.wf(),
            first_conflict(store@.log, entries_model(entries@), 0) == first_conflict(
                store@.log,
                entries_model(entries@),
                i as int,
            ),
        decreases entries.len() - i,
    {
        proof {
            assert(entries_model(entries@)[i as int] == entries@[i as int]@);
        }
        if store.term_at(entries[i].index) != Some(entries[i].term) {
            return i;
        }
        i += 1;
    }
    i
}

impl Node {
    /// The leader asks the node to append entries. A request of an earlier
    /// term is refused. If the log has no entry of term `prev_log_term` at
    /// `prev_log_index`, the request does not match. Else the log is cut
    /// where it first disagrees with the entries and continued with them,
    /// and the commit index moves up to `leader_commit`, though not past
    /// the last of the entries. A committed entry is never cut: a request
    /// that would do so is rejected.
    pub fn append_entries(
        &mut self,
        leader_id: NodeId,
        term: u64,
        prev_log_index: u64,
        prev_log_term: u64,
        entries: Vec<LogEntry>,
        leader_commit: u64,
    ) -> (r: AppendResult)
        requires
            old(self).wf(),
        ensures
            final(self).wf(),
            (final(self)@, r) == old(self)@.append_entries(
                leader_id,
                term,
                prev_log_index,
                prev_log_term,
                entries_model(entries@),
                leader_commit,
            ),
    {
        let current = self.current_term();
        if term < current {
            return AppendResult { term: current, outcome: AppendOutcome::StaleTerm };
        }
        if term == current && self.role == Role::Leader {
            return AppendResult { term, outcome: AppendOutcome::Rejected };
        }
        if term > current {
            self.step_down(term);
        }
        self.follow(leader_id);
        let ghost seen = self@;
        if !check_follows(&entries, prev_log_index) {
            return AppendResult { term, outcome: AppendOutcome::Rejected };
        }
        if self.store.term_at(prev_log_index) != Some(prev_log_term) {
            return AppendResult { term, outcome: AppendOutcome::LogMismatch };
        }
        let k = find_conflict(&self.store, &entries);
        let n = entries.len();
        let last_new = prev_log_index + (n as u64);
        proof {
            lemma_merged_log(seen, prev_log_index, prev_log_term, entries_model(entries@));
        }
        if k < n {
            if prev_log_index + (k as u64) < self.commit_index {
                return AppendResult { term, outcome: AppendOutcome::Rejected };
            }
            let mut entries = entries;
            let ghost all = entries@;
            let tail = entries.split_off(k);
            proof {
                assert(entries_model(tail@) =~= entries_model(all).skip(k as int));
                assert forall|j: int| 0 <= j < tail@.len() implies (#[trigger] entries_model(
                    tail@,
                )[j]).index == self@.log.truncate_after(prev_log_index + k).last_index() + 1
                    + j by {
                    assert(entries_model(tail@)[j] == entries_model(all)[j + k]);
                }
            }
            self.store.truncate_after(prev_log_index + (k as u64));
            let taken = self.store.append(tail);
            proof {
                assert(taken is Ok);
            }
            self.membership = compute_membership(&self.store, &self.base_membership);
        }
        let reach = if leader_commit < last_new {
            leader_commit
        } else {
            last_new
        };
        if reach > self.commit_index {
            self.commit_index = reach;
        }
        proof {
            let after = old(self)@.append_entries(
                leader_id,
                term,
                prev_log_index,
                prev_log_term,
                entries_model(entries@),
                leader_commit,
            ).0;
            assert(final(self)@.log =~= after.log);
            assert(final(self)@ =~= after);
        }
        AppendResult { term, outcome: AppendOutcome::Appended { match_index: last_new } }
    }
}

fn membership_error(e: ChangeError) -> (r: MembershipError)
    ensures
        r == change_error(e),
{
    match e {
        ChangeError::InProgress => MembershipError::InProgress,
        ChangeError::AlreadyMember => MembershipError::AlreadyMember,
        ChangeError::NotMember => MembershipError::NotMember,
        ChangeError::LastMember => MembershipError::LastMember,
    }
}

impl Node {
    /// The leader asks the node to install an image of the state machine.
    /// An image that reaches no further than the commit index changes
    /// nothing. Any other replaces the state; the log keeps what follows
    /// the image if it holds the image's last entry, and is emptied if not.
    pub fn install_snapshot(&mut self, leader_id: NodeId, term: u64, snapshot: Snapshot) -> (r:
        AppendResult)
        requires
            old(self).wf(),
            snapshot.wf(),
        ensures
            final(self).wf(),
            (final(self)@, r) == old(self)@.install_snapshot(leader_id, term, snapshot@),
    {
        let current = self.current_term();
        if term < current {
            return AppendResult { term: current, outcome: AppendOutcome::StaleTerm };
        }
        if term == current && self.role == Role::Leader {
            return AppendResult { term, outcome: AppendOutcome::Rejected };
        }
        if term > current {
            self.step_down(term);
        }
        self.follow(leader_id);
        let index = snapshot.last_included_index();
        let image_term = snapshot.last_included_term();
        let answer = AppendResult { term, outcome: AppendOutcome::Appended { match_index: index } };
        if index <= self.commit_index {
            return answer;
        }
        if index < u64::MAX && index <= self.store.last_index() && self.store.term_at(index) == Some(
            image_term,
        ) {
            self.store.purge_before(index + 1);
        } else {
            self.store.reset(index, image_term);
        }
        self.commit_index = index;
        self.base_membership = snapshot.membership().clone_membership();
        let kept = snapshot.clone_snapshot();
        self.state_machine.install_snapshot(snapshot);
        self.snapshot = Some(kept);
        self.membership = compute_membership(&self.store, &self.base_membership);
        proof {
            let after = old(self)@.install_snapshot(leader_id, term, snapshot@).0;
            self.state_machine.lemma_wf();
            assert(final(self)@.log =~= after.log);
            assert(final(self)@ =~= after);
        }
        answer
    }

    /// A peer answered a request to append entries or to install an image.
    /// A later term makes the leader step down. An answer of its own term
    /// moves what it knows of the peer's log: forward to the index that the
    /// peer reports, or one entry back if the peer's log did not match.
    pub fn handle_append_result(&mut self, from: NodeId, result: AppendResult)
        requires
            old(self).wf(),
        ensures
            final(self).wf(),
            final(self)@ == old(self)@.handle_append_result(from, result),
    {
        let current = self.current_term();
        if result.term > current {
            self.step_down(result.term);
            return ;
        }
        if self.role != Role::Leader || result.term != current || from == self.id {
            return ;
        }
        match result.outcome {
            AppendOutcome::Appended { match_index } => {
                if match_index > self.store.last_index() {
                    return ;
                }
                let known = self.match_of(from);
                let matched = if match_index > known {
                    match_index
                } else {
                    known
                };
                let next = if matched < u64::MAX {
                    matched + 1
                } else {
                    matched
                };
                self.match_index.insert(from, matched);
                self.next_index.insert(from, next);
                self.advance_commit();
            },
            AppendOutcome::LogMismatch => {
                let next = self.next_of(from);
                let known = self.match_of(from);
                let back = if known < u64::MAX && next > known + 1 {
                    next - 1
                } else {
                    next
                };
                self.next_index.insert(from, back);
            },
            _ => {},
        }
    }

    /// Applies the committed entries that were not applied yet, in the
    /// order of their indexes, and returns what each did.
    pub fn apply_committed(&mut self) -> (results: Vec<(u64, AppliedResult)>)
        requires
            old(self).wf(),
        ensures
            final(self).wf(),
            (final(self)@, results@) == old(self)@.apply_committed(),
    {
        let mut results: Vec<(u64, AppliedResult)> = Vec::new();
        let ghost start = self@;
        proof {
            assert(results@ =~= Seq::<(u64, AppliedResult)>::empty());
        }
        while self.state_machine.last_applied() < self.commit_index
            invariant
                self.wf(),
                start == old(self)@,
                self@ == (NodeModel { state: self@.state, ..start }),
                start.state.last_applied <= self@.state.last_applied,
                (self@.state, results@) == apply_upto(
                    start.state,
                    start.log,
                    self@.state.last_applied as int,
                ),
            decreases self@.commit_index - self@.state.last_applied,
        {
            let index = self.state_machine.last_applied() + 1;
            let ghost before = self@.state;
            let ghost so_far = results@;
            let result = match self.store.entry(index) {
                Some(entry) => self.state_machine.apply(entry),
                None => AppliedResult::OutOfOrder,
            };
            results.push((index, result));
            proof {
                self.state_machine.lemma_wf();
                assert(start.log.at(index as int).index == index);
                assert(self@ =~= (NodeModel { state: self@.state, ..start }));
            }
        }
        proof {
            assert(final(self)@ =~= old(self)@.apply_committed().0);
        }
        results
    }

    /// Compacts the log: the state as it is now becomes the image, and the
    /// log drops the entries that the image includes.
    pub fn compact(&mut self)
        requires
            old(self).wf(),
        ensures
            final(self).wf(),
            final(self)@ == old(self)@.compact(),
    {
        let applied = self.state_machine.last_applied();
        if applied <= self.store.base_index() || applied == u64::MAX {
            return ;
        }
        let image = self.state_machine.snapshot();
        self.base_membership = self.state_machine.membership().clone_membership();
        self.store.purge_before(applied + 1);
        self.snapshot = Some(image);
        self.membership = compute_membership(&self.store, &self.base_membership);
        proof {
            self.state_machine.lemma_wf();
            assert(final(self)@.log =~= old(self)@.compact().log);
            assert(final(self)@ =~= old(self)@.compact());
        }
    }

    /// What the leader sends to a peer: the image if the log no longer
    /// holds the entry at the peer's next index, else the entries from
    /// there on.
    pub fn replicate(&self, peer: NodeId) -> (r: Option<Replication>)
        requires
            self.wf(),
        ensures
            match r {
                Some(replication) => self@.replicate(peer) == Some(replication@),
                None => self@.replicate(peer) is None,
            },
    {
        if self.role != Role::Leader || peer == self.id {
            return None;
        }
        let known = self.next_of(peer);
        let next = if known < 1 {
            1
        } else {
            known
        };
        let term = self.current_term();
        if next <= self.store.base_index() {
            match &self.snapshot {
                Some(image) => Some(
                    Replication::Snapshot {
                        term,
                        leader_id: self.id,
                        snapshot: image.clone_snapshot(),
                    },
                ),
                None => None,
            }
        } else {
            match self.store.term_at(next - 1) {
                Some(prev_log_term) => Some(
                    Replication::Append {
                        term,
                        leader_id: self.id,
                        prev_log_index: next - 1,
                        prev_log_term,
                        entries: self.store.entries_after(next - 1),
                        leader_commit: self.commit_index,
                    },
                ),
                None => None,
            }
        }
    }

    /// A request to add a node to the cluster. Only the leader takes it,
    /// and only while no other change is under way. The node first has to
    /// catch up with the log; `continue_change` then proposes the first
    /// step of the change.
    pub fn join(&mut self, id: NodeId) -> (r: Result<(), MembershipError>)
        requires
            old(self).wf(),
        ensures
            final(self).wf(),
            (final(self)@, r) == old(self)@.join(id),
    {
        if self.role != Role::Leader {
            return Err(MembershipError::NotLeader { leader_hint: self.leader_id });
        }
        if self.change.is_some() {
            return Err(MembershipError::InProgress);
        }
        match self.membership.plan_join(id) {
            Err(e) => Err(membership_error(e)),
            Ok(plan) => {
                self.change = Some(
                    Change {
                        joint: plan.joint,
                        target: plan.target,
                        learner: Some(id),
                        joint_index: None,
                    },
                );
                proof {
                    assert(final(self)@ =~= old(self)@.join(id).0);
                }
                Ok(())
            },
        }
    }

    /// A request to remove a node from the cluster. Only the leader takes
    /// it, and only while no other change is under way. The first step of
    /// the change is proposed at once.
    pub fn leave(&mut self, id: NodeId) -> (r: Result<(), MembershipError>)
        requires
            old(self).wf(),
        ensures
            final(self).wf(),
            (final(self)@, r) == old(self)@.leave(id),
    {
        if self.role != Role::Leader {
            return Err(MembershipError::NotLeader { leader_hint: self.leader_id });
        }
        if self.change.is_some() {
            return Err(MembershipError::InProgress);
        }
        match self.membership.plan_leave(id) {
            Err(e) => Err(membership_error(e)),
            Ok(plan) => {
                let last = self.store.last_index();
                if last >= u64::MAX {
                    return Err(MembershipError::Unavailable);
                }
                self.append_as_leader(Payload::ConfigChange(plan.joint.clone_membership()));
                self.change = Some(
                    Change {
                        joint: plan.joint,
                        target: plan.target,
                        learner: None,
                        joint_index: Some(last + 1),
                    },
                );
                proof {
                    assert(final(self)@ =~= old(self)@.leave(id).0);
                }
                Ok(())
            },
        }
    }

    /// Takes the change of membership that the leader is carrying out one
    /// step further, if the step is due: the first step once the node to
    /// add holds every committed entry, the second once the first was
    /// applied.
    pub fn continue_change(&mut self)
        requires
            old(self).wf(),
        ensures
            final(self).wf(),
            final(self)@ == old(self)@.continue_change(),
    {
        if self.role != Role::Leader {
            return ;
        }
        let last = self.store.last_index();
        if last >= u64::MAX {
            return ;
        }
        let (joint, target, learner, joint_index) = match &self.change {
            Some(c) => (
                c.joint.clone_membership(),
                c.target.clone_membership(),
                c.learner,
                c.joint_index,
            ),
            None => {
                return ;
            },
        };
        match joint_index {
            None => {
                let waiting = match learner {
                    Some(l) => self.match_of(l) < self.commit_index,
                    None => false,
                };
                if waiting {
                    return ;
                }
                self.append_as_leader(Payload::ConfigChange(joint.clone_membership()));
                self.change = Some(Change { joint, target, learner, joint_index: Some(last + 1) });
                proof {
                    assert(final(self)@ =~~= old(self)@.continue_change());
                }
            },
            Some(i) => {
                if self.state_machine.last_applied() < i {
                    return ;
                }
                self.append_as_leader(Payload::ConfigChange(target));
                self.change = None;
                proof {
                    assert(final(self)@ =~~= old(self)@.continue_change());
                }
            },
        }
    }
}

} // verus!
