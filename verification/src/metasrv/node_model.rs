//! What a node of the cluster is, as a value, and what each event makes of
//! it: the consensus protocol as functions from a node and an event to the
//! node after it.

use crate::metasrv::log_store::LogModel;
use crate::metasrv::membership::{
    spec_plan_join, spec_plan_leave, ChangeError, MembershipModel, NodeId,
};
use crate::metasrv::messages::{
    AppendOutcome, AppendResult, MembershipError, ProposeError, VoteRequest, VoteResult,
};
use crate::metasrv::state_machine::{AppliedResult, StateModel};
use crate::metasrv::types::{EntryModel, HardState, PayloadModel};
use vstd::prelude::*;

verus! {

/// The part a node plays in the current term.
#[derive(Clone, Copy, Debug, PartialEq, Eq, Structural)]
pub enum Role {
    Follower,
    Candidate,
    Leader,
}

/// A change of membership that a leader is carrying out.
#[verifier::ext_equal]
pub struct ChangeModel {
    /// The membership of the first step.
    pub joint: MembershipModel,
    /// The membership of the second step.
    pub target: MembershipModel,
    /// The node that must catch up with the log before the first step.
    pub learner: Option<NodeId>,
    /// The index of the entry of the first step, once it was proposed.
    pub joint_index: Option<u64>,
}

/// A node of the cluster.
#[verifier::ext_equal]
pub struct NodeModel {
    pub id: NodeId,
    pub role: Role,
    pub hard_state: HardState,
    pub log: LogModel,
    pub commit_index: u64,
    pub state: StateModel,
    /// The latest image of the state machine: the state at `log.base_index`.
    pub snapshot: Option<StateModel>,
    /// The membership at `log.base_index`.
    pub base_membership: MembershipModel,
    /// The membership in force: that of the latest entry in the log that
    /// carries one, committed or not.
    pub membership: MembershipModel,
    /// The leader of the current term, as far as the node knows.
    pub leader_id: Option<NodeId>,
    /// The nodes that gave this node their vote in the current term.
    pub votes: Set<NodeId>,
    /// For a leader: the index of the next entry to send to each peer.
    pub next_index: Map<NodeId, u64>,
    /// For a leader: the highest index up to which each peer's log is known
    /// to agree with its own.
    pub match_index: Map<NodeId, u64>,
    pub change: Option<ChangeModel>,
}

/// What a leader sends to a peer to bring the peer's log up to its own.
#[verifier::ext_equal]
pub enum ReplicationModel {
    /// The entries from the peer's next index on.
    Append {
        term: u64,
        leader_id: NodeId,
        prev_log_index: u64,
        prev_log_term: u64,
        entries: Seq<EntryModel>,
        leader_commit: u64,
    },
    /// The image of the state machine, where the entries that the peer
    /// needs were compacted away.
    Snapshot { term: u64, leader_id: NodeId, image: StateModel },
}

/// The error of a change of membership for the error of its plan.
pub open spec fn change_error(e: ChangeError) -> MembershipError {
    match e {
        ChangeError::InProgress => MembershipError::InProgress,
        ChangeError::AlreadyMember => MembershipError::AlreadyMember,
        ChangeError::NotMember => MembershipError::NotMember,
        ChangeError::LastMember => MembershipError::LastMember,
    }
}

/// The membership that the latest of the entries carries, or `base` if none
/// carries one.
pub open spec fn latest_config(entries: Seq<EntryModel>, base: MembershipModel) -> MembershipModel
    decreases entries.len(),
{
    if entries.len() == 0 {
        base
    } else {
        match entries.last().payload {
            PayloadModel::ConfigChange(m) => m,
            _ => latest_config(entries.drop_last(), base),
        }
    }
}

/// Whether a log whose last entry has the given term and index is at least
/// as up to date as `log`: its last term is later, or the same and its last
/// index is no smaller.
pub open spec fn up_to_date(log: LogModel, last_log_index: u64, last_log_term: u64) -> bool {
    last_log_term > log.last_term() || (last_log_term == log.last_term() && last_log_index
        >= log.last_index())
}

/// Whether the entries follow the index `prev` without a gap.
pub open spec fn follows(entries: Seq<EntryModel>, prev: u64) -> bool {
    forall|k: int| 0 <= k < entries.len() ==> (#[trigger] entries[k]).index == prev + 1 + k
}

/// The position of the first entry from `from` on that the log does not
/// hold with the same term, or the number of entries if it holds them all.
pub open spec fn first_conflict(log: LogModel, entries: Seq<EntryModel>, from: int) -> int
    decreases entries.len() - from,
{
    if from < 0 || from >= entries.len() {
        entries.len() as int
    } else if log.term_at(entries[from].index as int) == Some(entries[from].term) {
        first_conflict(log, entries, from + 1)
    } else {
        from
    }
}

/// Up to the first conflict the log holds every entry with its term, and it
/// does not hold the entry at the first conflict with its term.
pub proof fn lemma_first_conflict(log: LogModel, entries: Seq<EntryModel>, from: int)
    requires
        0 <= from <= entries.len(),
    ensures
        from <= first_conflict(log, entries, from) <= entries.len(),
        forall|j: int|
            from <= j < first_conflict(log, entries, from) ==> log.term_at(
                (#[trigger] entries[j]).index as int,
            ) == Some(entries[j].term),
        first_conflict(log, entries, from) < entries.len() ==> log.term_at(
            entries[first_conflict(log, entries, from)].index as int,
        ) != Some(entries[first_conflict(log, entries, from)].term),
    decreases entries.len() - from,
{
    if from < entries.len() && log.term_at(entries[from].index as int) == Some(entries[from].term) {
        lemma_first_conflict(log, entries, from + 1);
    }
}

/// What the log is after the entries of a request that matched it: it
/// reaches at least to the last of them, it is as before up to the first
/// conflict, and from there on it holds the request's entries and no more.
pub proof fn lemma_merged_log(n: NodeModel, prev: u64, prev_term: u64, entries: Seq<EntryModel>)
    requires
        n.log.wf(),
        follows(entries, prev),
        prev + entries.len() <= u64::MAX,
        n.log.term_at(prev as int) == Some(prev_term),
    ensures
        ({
            let k = first_conflict(n.log, entries, 0);
            let merged = n.merged_log(prev, entries);
            &&& 0 <= k <= entries.len()
            &&& merged.wf()
            &&& merged.base_index == n.log.base_index
            &&& merged.base_term == n.log.base_term
            &&& prev + k <= n.log.last_index()
            &&& merged.last_index() >= prev + entries.len()
            &&& k < entries.len() ==> merged.last_index() == prev + entries.len()
            &&& k == entries.len() ==> merged == n.log
            &&& forall|i: int|
                n.log.base_index < i <= prev + k ==> merged.has(i) && #[trigger] merged.at(i)
                    == n.log.at(i)
            &&& forall|j: int|
                k <= j < entries.len() ==> #[trigger] merged.at(prev + 1 + j) == entries[j]
            &&& forall|j: int|
                0 <= j < entries.len() ==> merged.term_at(prev + 1 + j) == Some(
                    (#[trigger] entries[j]).term,
                )
        }),
{
    let k = first_conflict(n.log, entries, 0);
    let merged = n.merged_log(prev, entries);
    lemma_first_conflict(n.log, entries, 0);
    if k > 0 {
        assert(n.log.term_at(entries[k - 1].index as int) == Some(entries[k - 1].term));
    }
    if k < entries.len() {
        let cut = n.log.truncate_after(prev + k);
        assert(cut.last_index() == prev + k);
        assert forall|i: int| 0 <= i < merged.entries.len() implies (
        #[trigger] merged.entries[i]).index == merged.base_index + 1 + i by {
            if i < cut.entries.len() {
                assert(merged.entries[i] == n.log.entries[i]);
            } else {
                assert(merged.entries[i] == entries.skip(k)[i - cut.entries.len()]);
            }
        }
        assert forall|j: int| 0 <= j < entries.len() implies merged.term_at(prev + 1 + j) == Some(
            (#[trigger] entries[j]).term,
        ) by {
            if j < k {
                assert(n.log.term_at(entries[j].index as int) == Some(entries[j].term));
                assert(merged.at(prev + 1 + j) == n.log.at(prev + 1 + j));
            } else {
                assert(merged.at(prev + 1 + j) == entries.skip(k)[j - k]);
            }
        }
        assert forall|j: int| k <= j < entries.len() implies #[trigger] merged.at(prev + 1 + j)
            == entries[j] by {
            assert(merged.at(prev + 1 + j) == entries.skip(k)[j - k]);
        }
    } else {
        assert forall|j: int| 0 <= j < entries.len() implies merged.term_at(prev + 1 + j) == Some(
            (#[trigger] entries[j]).term,
        ) by {
            assert(n.log.term_at(entries[j].index as int) == Some(entries[j].term));
        }
    }
}

/// The results of applying the entries after the last applied one up to
/// `upto`, in order, and the state after them.
pub open spec fn apply_upto(state: StateModel, log: LogModel, upto: int) -> (
    StateModel,
    Seq<(u64, AppliedResult)>,
)
    decreases upto - state.last_applied,
{
    if upto <= state.last_applied {
        (state, Seq::empty())
    } else {
        let (before, results) = apply_upto(state, log, upto - 1);
        let (after, result) = before.apply(log.at(upto));
        (after, results.push((upto as u64, result)))
    }
}

impl NodeModel {
    /// The latest term that the node has seen.
    pub open spec fn term(self) -> u64 {
        self.hard_state.current_term
    }

    /// The candidate that the node voted for in the current term.
    pub open spec fn voted_for(self) -> Option<NodeId> {
        self.hard_state.voted_for
    }

    /// The parts of the node fit together: the log has no gaps; what was
    /// compacted was applied, what was applied was committed, and what was
    /// committed is in the log; the state machine knows the term of the
    /// last entry it applied; the image, if there is one, is the state at
    /// the base of the log; the membership in force is the latest in the
    /// log.
    pub open spec fn wf(self) -> bool {
        &&& self.log.wf()
        &&& self.state.wf()
        &&& self.log.base_index <= self.state.last_applied <= self.commit_index
            <= self.log.last_index()
        &&& self.log.term_at(self.state.last_applied as int) == Some(self.state.last_applied_term)
        &&& match self.snapshot {
            Some(image) => image.wf() && image.last_applied == self.log.base_index
                && image.last_applied_term == self.log.base_term,
            None => self.log.base_index == 0,
        }
        &&& self.membership == latest_config(self.log.entries, self.base_membership)
        &&& self.votes.finite()
    }

    /// A node that starts with an empty log as a follower in term 0.
    pub open spec fn initial(id: NodeId, membership: MembershipModel) -> NodeModel {
        NodeModel {
            id,
            role: Role::Follower,
            hard_state: HardState { current_term: 0, voted_for: None },
            log: LogModel::empty(),
            commit_index: 0,
            state: StateModel::initial(membership),
            snapshot: None,
            base_membership: membership,
            membership,
            leader_id: None,
            votes: Set::empty(),
            next_index: Map::empty(),
            match_index: Map::empty(),
            change: None,
        }
    }

    /// Whether a log and an image, as a node finds them on disk when it
    /// starts, fit together: the image, if there is one, is the state at
    /// the base of the log, and a log without an image starts at index 0.
    pub open spec fn restorable(log: LogModel, snapshot: Option<StateModel>) -> bool {
        match snapshot {
            Some(image) => image.last_applied == log.base_index && image.last_applied_term
                == log.base_term,
            None => log.base_index == 0 && log.base_term == 0,
        }
    }

    /// A node that starts again with what it kept on disk: a follower that
    /// knows no leader, has committed and applied what its image includes
    /// and nothing more, and holds the log and the hard state as they were.
    pub open spec fn restore(
        id: NodeId,
        hard_state: HardState,
        log: LogModel,
        snapshot: Option<StateModel>,
        membership: MembershipModel,
    ) -> NodeModel {
        let base_membership = match snapshot {
            Some(image) => image.membership,
            None => membership,
        };
        NodeModel {
            id,
            role: Role::Follower,
            hard_state,
            log,
            commit_index: log.base_index,
            state: match snapshot {
                Some(image) => image,
                None => StateModel::initial(membership),
            },
            snapshot,
            base_membership,
            membership: latest_config(log.entries, base_membership),
            leader_id: None,
            votes: Set::empty(),
            next_index: Map::empty(),
            match_index: Map::empty(),
            change: None,
        }
    }

    /// The node after a crash and a restart.
    pub open spec fn restart(self, membership: MembershipModel) -> NodeModel {
        NodeModel::restore(self.id, self.hard_state, self.log, self.snapshot, membership)
    }

    /// The node with another log, and with the membership that the log puts
    /// in force.
    pub open spec fn with_log(self, log: LogModel) -> NodeModel {
        NodeModel { log, membership: latest_config(log.entries, self.base_membership), ..self }
    }

    /// The node as a follower in the given term, without a vote cast and
    /// without what it held as a candidate or a leader.
    pub open spec fn step_down(self, term: u64) -> NodeModel {
        NodeModel {
            role: Role::Follower,
            hard_state: HardState { current_term: term, voted_for: None },
            leader_id: None,
            votes: Set::empty(),
            next_index: Map::empty(),
            match_index: Map::empty(),
            change: None,
            ..self
        }
    }

    /// The node after it saw a message of the given term: a follower of that
    /// term if the term is later than its own.
    pub open spec fn observe_term(self, term: u64) -> NodeModel {
        if term > self.term() {
            self.step_down(term)
        } else {
            self
        }
    }

    /// The node as a follower of the given leader in its own term.
    pub open spec fn follow(self, leader_id: NodeId) -> NodeModel {
        NodeModel {
            role: Role::Follower,
            leader_id: Some(leader_id),
            votes: Set::empty(),
            next_index: Map::empty(),
            match_index: Map::empty(),
            change: None,
            ..self
        }
    }

    /// The index up to which a peer's log is known to agree with this
    /// node's: 0 if nothing is known.
    pub open spec fn match_of(self, peer: NodeId) -> u64 {
        if self.match_index.contains_key(peer) {
            self.match_index[peer]
        } else {
            0
        }
    }

    /// The index of the next entry to send to a peer: the one after the
    /// last if nothing is known.
    pub open spec fn next_of(self, peer: NodeId) -> u64 {
        if self.next_index.contains_key(peer) {
            self.next_index[peer]
        } else if self.log.last_index() < u64::MAX {
            (self.log.last_index() + 1) as u64
        } else {
            u64::MAX
        }
    }

    /// Whether a node's log is known to hold the leader's entry at `index`:
    /// the leader's own does if it reaches that far, a peer's if the peer
    /// has matched it.
    pub open spec fn has_acked(self, v: NodeId, index: int) -> bool {
        if v == self.id {
            index <= self.log.last_index()
        } else {
            self.match_of(v) >= index
        }
    }

    /// The voters whose logs are known to hold the leader's entry at
    /// `index`.
    pub open spec fn acks(self, index: int) -> Set<NodeId> {
        Set::new(|v: NodeId| self.membership.is_voter(v) && self.has_acked(v, index))
    }

    /// Whether the leader may commit up to `index`: the entry there is of
    /// its own term and a quorum holds it.
    pub open spec fn committable(self, index: int) -> bool {
        &&& self.commit_index < index <= self.log.last_index()
        &&& self.log.term_at(index) == Some(self.term())
        &&& self.membership.is_quorum(self.acks(index))
    }

    /// The highest index of at most `index` that the leader may commit up
    /// to, or its commit index if there is none.
    pub open spec fn highest_committable(self, index: int) -> int
        decreases index - self.commit_index,
    {
        if index <= self.commit_index {
            self.commit_index as int
        } else if self.committable(index) {
            index
        } else {
            self.highest_committable(index - 1)
        }
    }

    /// The leader after it moved its commit index as far as a quorum and
    /// its own term allow. Any other node stays as it is.
    pub open spec fn advance_commit(self) -> NodeModel {
        if self.role == Role::Leader {
            NodeModel {
                commit_index: self.highest_committable(self.log.last_index()) as u64,
                ..self
            }
        } else {
            self
        }
    }

    /// The node with one more entry of its term at the end of its log.
    pub open spec fn appended(self, payload: PayloadModel) -> NodeModel {
        self.with_log(
            self.log.append(
                seq![
                    EntryModel {
                        index: (self.log.last_index() + 1) as u64,
                        term: self.term(),
                        payload,
                    },
                ],
            ),
        )
    }

    /// The leader with one more entry of its term at the end of its log,
    /// and with the commit index that follows.
    pub open spec fn append_as_leader(self, payload: PayloadModel) -> NodeModel {
        self.appended(payload).advance_commit()
    }

    /// The second step of a change that an earlier leader left unfinished:
    /// the set after the change becomes the membership.
    pub open spec fn inherited_change(self) -> Option<ChangeModel> {
        match self.membership.members_after_change {
            Some(after) => Some(
                ChangeModel {
                    joint: self.membership,
                    target: MembershipModel { members: after, members_after_change: None },
                    learner: None,
                    joint_index: Some(self.log.last_index() as u64),
                },
            ),
            None => None,
        }
    }

    /// The node as a leader that knows nothing of its peers' logs yet and
    /// takes over an unfinished change of membership.
    pub open spec fn as_leader(self) -> NodeModel {
        NodeModel {
            role: Role::Leader,
            leader_id: Some(self.id),
            next_index: Map::empty(),
            match_index: Map::empty(),
            change: self.inherited_change(),
            ..self
        }
    }

    /// The candidate as the leader of its term: it opens its term with an
    /// entry that carries nothing, if the log can take one.
    pub open spec fn become_leader(self) -> NodeModel {
        if self.log.last_index() < u64::MAX {
            self.as_leader().append_as_leader(PayloadModel::NoOp)
        } else {
            self.as_leader()
        }
    }

    /// The node with one more vote counted for it.
    pub open spec fn counted(self, from: NodeId) -> NodeModel {
        NodeModel { votes: self.votes.insert(from), ..self }
    }

    /// The node after a vote was counted for it: the leader, once a quorum
    /// has voted for it.
    pub open spec fn with_vote(self, from: NodeId) -> NodeModel {
        if self.membership.is_quorum(self.counted(from).votes) {
            self.counted(from).become_leader()
        } else {
            self.counted(from)
        }
    }

    /// The node as a candidate of the next term, before any vote is
    /// counted.
    pub open spec fn standing(self) -> NodeModel {
        NodeModel {
            role: Role::Candidate,
            hard_state: HardState {
                current_term: (self.term() + 1) as u64,
                voted_for: Some(self.id),
            },
            ..self.step_down(self.term())
        }
    }

    /// Whether the election timer makes the node stand for election: it is
    /// no leader, it has a vote, and there is a later term to stand in.
    pub open spec fn can_stand(self) -> bool {
        self.role != Role::Leader && self.term() < u64::MAX && self.membership.is_voter(self.id)
    }

    /// The node after its election timer fired: a candidate of the next
    /// term with its own vote, or the leader at once if that vote is a
    /// quorum.
    pub open spec fn election_timeout(self) -> NodeModel {
        if !self.can_stand() {
            self
        } else {
            self.standing().with_vote(self.id)
        }
    }

    /// The request for a vote that a candidate sends to its peers.
    pub open spec fn vote_request(self) -> VoteRequest {
        VoteRequest {
            term: self.term(),
            candidate_id: self.id,
            last_log_index: self.log.last_index() as u64,
            last_log_term: self.log.last_term(),
        }
    }

    /// The node after a request for a vote, and its answer. The vote is
    /// given if and only if the request's term is not behind the node's,
    /// the node has not voted for another candidate in that term, and the
    /// candidate's log is at least as up to date as the node's.
    pub open spec fn request_vote(
        self,
        candidate_id: NodeId,
        term: u64,
        last_log_index: u64,
        last_log_term: u64,
    ) -> (NodeModel, VoteResult) {
        if term < self.term() {
            (self, VoteResult { term: self.term(), vote_granted: false })
        } else {
            let seen = self.observe_term(term);
            let free = seen.voted_for() is None || seen.voted_for() == Some(candidate_id);
            if free && up_to_date(seen.log, last_log_index, last_log_term) {
                (
                    NodeModel {
                        hard_state: HardState { current_term: term, voted_for: Some(candidate_id) },
                        ..seen
                    },
                    VoteResult { term, vote_granted: true },
                )
            } else {
                (seen, VoteResult { term, vote_granted: false })
            }
        }
    }

    /// The node after the answer to its request for a vote.
    pub open spec fn handle_vote_result(self, from: NodeId, result: VoteResult) -> NodeModel {
        if result.term > self.term() {
            self.step_down(result.term)
        } else if self.role == Role::Candidate && result.term == self.term() && result.vote_granted
            && self.membership.is_voter(from) {
            self.with_vote(from)
        } else {
            self
        }
    }

    /// The log after the entries of an accepted request: as it is, if it
    /// holds them all with their terms; else cut after the last entry that
    /// agrees and continued with the request's entries from there.
    pub open spec fn merged_log(self, prev_log_index: u64, entries: Seq<EntryModel>) -> LogModel {
        let k = first_conflict(self.log, entries, 0);
        if k == entries.len() {
            self.log
        } else {
            self.log.truncate_after(prev_log_index + k).append(entries.skip(k))
        }
    }

    /// The node after a request to append entries, and its answer.
    pub open spec fn append_entries(
        self,
        leader_id: NodeId,
        term: u64,
        prev_log_index: u64,
        prev_log_term: u64,
        entries: Seq<EntryModel>,
        leader_commit: u64,
    ) -> (NodeModel, AppendResult) {
        if term < self.term() {
            (self, AppendResult { term: self.term(), outcome: AppendOutcome::StaleTerm })
        } else if term == self.term() && self.role == Role::Leader {
            (self, AppendResult { term, outcome: AppendOutcome::Rejected })
        } else {
            let seen = self.observe_term(term).follow(leader_id);
            let k = first_conflict(seen.log, entries, 0);
            if !follows(entries, prev_log_index) || prev_log_index + entries.len() > u64::MAX {
                (seen, AppendResult { term, outcome: AppendOutcome::Rejected })
            } else if seen.log.term_at(prev_log_index as int) != Some(prev_log_term) {
                (seen, AppendResult { term, outcome: AppendOutcome::LogMismatch })
            } else if k < entries.len() && prev_log_index + k < seen.commit_index {
                (seen, AppendResult { term, outcome: AppendOutcome::Rejected })
            } else {
                let last_new = (prev_log_index + entries.len()) as u64;
                let reach = if leader_commit < last_new {
                    leader_commit
                } else {
                    last_new
                };
                let commit_index = if reach > seen.commit_index {
                    reach
                } else {
                    seen.commit_index
                };
                (
                    NodeModel {
                        commit_index,
                        ..seen.with_log(seen.merged_log(prev_log_index, entries))
                    },
                    AppendResult {
                        term,
                        outcome: AppendOutcome::Appended { match_index: last_new },
                    },
                )
            }
        }
    }

    /// The node after a request to install an image of the state machine,
    /// and its answer. An image that reaches no further than the commit
    /// index changes nothing. Any other replaces the state; the log keeps
    /// what follows the image if it holds the image's last entry, and is
    /// emptied if not.
    pub open spec fn install_snapshot(self, leader_id: NodeId, term: u64, image: StateModel) -> (
        NodeModel,
        AppendResult,
    ) {
        if term < self.term() {
            (self, AppendResult { term: self.term(), outcome: AppendOutcome::StaleTerm })
        } else if term == self.term() && self.role == Role::Leader {
            (self, AppendResult { term, outcome: AppendOutcome::Rejected })
        } else {
            let seen = self.observe_term(term).follow(leader_id);
            let answer = AppendResult {
                term,
                outcome: AppendOutcome::Appended { match_index: image.last_applied },
            };
            if image.last_applied <= seen.commit_index {
                (seen, answer)
            } else {
                let log = if image.last_applied < u64::MAX && seen.log.has(
                    image.last_applied as int,
                ) && seen.log.term_at(image.last_applied as int) == Some(image.last_applied_term) {
                    seen.log.purge_before(image.last_applied + 1)
                } else {
                    LogModel {
                        base_index: image.last_applied,
                        base_term: image.last_applied_term,
                        entries: Seq::empty(),
                    }
                };
                (
                    NodeModel {
                        commit_index: image.last_applied,
                        state: seen.state.install(image),
                        snapshot: Some(image),
                        base_membership: image.membership,
                        ..seen
                    }.with_log(log),
                    answer,
                )
            }
        }
    }

    /// The node after a proposal, and the index of the new entry. Only a
    /// leader takes a proposal; it adds the entry to its own log and does
    /// not wait for it to be committed.
    pub open spec fn propose(self, payload: PayloadModel) -> (NodeModel, Result<u64, ProposeError>) {
        if self.role != Role::Leader {
            (self, Err(ProposeError::NotLeader { leader_hint: self.leader_id }))
        } else if self.log.last_index() >= u64::MAX {
            (self, Err(ProposeError::Unavailable))
        } else {
            (self.append_as_leader(payload), Ok((self.log.last_index() + 1) as u64))
        }
    }

    /// The leader after it learnt that a peer's log agrees with its own up
    /// to `match_index`: what it knows of the peer's log moves forward, never
    /// back.
    pub open spec fn matched(self, from: NodeId, match_index: u64) -> NodeModel {
        let known = if match_index > self.match_of(from) {
            match_index
        } else {
            self.match_of(from)
        };
        NodeModel {
            match_index: self.match_index.insert(from, known),
            next_index: self.next_index.insert(
                from,
                if known < u64::MAX {
                    (known + 1) as u64
                } else {
                    known
                },
            ),
            ..self
        }
    }

    /// The leader after a peer's answer to a request to append entries or
    /// to install an image. A later term makes it step down. An answer of
    /// its own term moves what it knows of the peer's log: forward to the
    /// index that the peer reports, or one entry back, though never behind
    /// what the peer is known to hold, if the peer's log did not match.
    pub open spec fn handle_append_result(self, from: NodeId, result: AppendResult) -> NodeModel {
        if result.term > self.term() {
            self.step_down(result.term)
        } else if self.role != Role::Leader || result.term != self.term() || from == self.id {
            self
        } else {
            match result.outcome {
                AppendOutcome::Appended { match_index } => {
                    if match_index > self.log.last_index() {
                        self
                    } else {
                        self.matched(from, match_index).advance_commit()
                    }
                },
                AppendOutcome::LogMismatch => {
                    let next = self.next_of(from);
                    let back = if next > self.match_of(from) + 1 {
                        (next - 1) as u64
                    } else {
                        next
                    };
                    NodeModel { next_index: self.next_index.insert(from, back), ..self }
                },
                _ => self,
            }
        }
    }

    /// The node after it applied the committed entries that it had not
    /// applied yet, in the order of their indexes, with what each did.
    pub open spec fn apply_committed(self) -> (NodeModel, Seq<(u64, AppliedResult)>) {
        let (state, results) = apply_upto(self.state, self.log, self.commit_index as int);
        (NodeModel { state, ..self }, results)
    }

    /// The node after compaction: the state as it is now becomes the image,
    /// and the log drops the entries that the image includes.
    pub open spec fn compact(self) -> NodeModel {
        if self.log.base_index < self.state.last_applied < u64::MAX {
            NodeModel {
                snapshot: Some(self.state.snapshot()),
                base_membership: self.state.membership,
                ..self
            }.with_log(self.log.purge_before(self.state.last_applied + 1))
        } else {
            self
        }
    }

    /// What the leader sends to a peer: the image if the log no longer
    /// holds the entry at the peer's next index, else the entries from
    /// there on. `None` for a node that is no leader, and for itself.
    pub open spec fn replicate(self, peer: NodeId) -> Option<ReplicationModel> {
        let next = if self.next_of(peer) < 1 {
            1
        } else {
            self.next_of(peer)
        };
        if self.role != Role::Leader || peer == self.id {
            None
        } else if next <= self.log.base_index {
            match self.snapshot {
                Some(image) => Some(
                    ReplicationModel::Snapshot { term: self.term(), leader_id: self.id, image },
                ),
                None => None,
            }
        } else {
            match self.log.term_at(next - 1) {
                Some(prev_log_term) => Some(
                    ReplicationModel::Append {
                        term: self.term(),
                        leader_id: self.id,
                        prev_log_index: (next - 1) as u64,
                        prev_log_term,
                        entries: self.log.entries.skip(self.log.count_upto(next - 1)),
                        leader_commit: self.commit_index,
                    },
                ),
                None => None,
            }
        }
    }

    /// The leader after a request to add a node, and whether the change
    /// began. The node first has to catch up with the log: the first step
    /// of the change is proposed by `continue_change` once it has.
    pub open spec fn join(self, id: NodeId) -> (NodeModel, Result<(), MembershipError>) {
        if self.role != Role::Leader {
            (self, Err(MembershipError::NotLeader { leader_hint: self.leader_id }))
        } else if self.change is Some {
            (self, Err(MembershipError::InProgress))
        } else {
            match spec_plan_join(self.membership, id) {
                Err(e) => (self, Err(change_error(e))),
                Ok((joint, target)) => (
                    NodeModel {
                        change: Some(
                            ChangeModel { joint, target, learner: Some(id), joint_index: None },
                        ),
                        ..self
                    },
                    Ok(()),
                ),
            }
        }
    }

    /// The leader after a request to remove a node, and whether the change
    /// began: its first step is proposed at once.
    pub open spec fn leave(self, id: NodeId) -> (NodeModel, Result<(), MembershipError>) {
        if self.role != Role::Leader {
            (self, Err(MembershipError::NotLeader { leader_hint: self.leader_id }))
        } else if self.change is Some {
            (self, Err(MembershipError::InProgress))
        } else {
            match spec_plan_leave(self.membership, id) {
                Err(e) => (self, Err(change_error(e))),
                Ok((joint, target)) => {
                    if self.log.last_index() >= u64::MAX {
                        (self, Err(MembershipError::Unavailable))
                    } else {
                        (
                            NodeModel {
                                change: Some(
                                    ChangeModel {
                                        joint,
                                        target,
                                        learner: None,
                                        joint_index: Some((self.log.last_index() + 1) as u64),
                                    },
                                ),
                                ..self.append_as_leader(PayloadModel::ConfigChange(joint))
                            },
                            Ok(()),
                        )
                    }
                },
            }
        }
    }

    /// The leader after it took the change of membership that it is
    /// carrying out one step further, if the step is due: the first step
    /// once the node to add holds every committed entry, the second once
    /// the first was applied.
    pub open spec fn continue_change(self) -> NodeModel {
        if self.role != Role::Leader || self.log.last_index() >= u64::MAX {
            self
        } else {
            match self.change {
                None => self,
                Some(c) => match c.joint_index {
                    None => {
                        if c.learner matches Some(l) && self.match_of(l) < self.commit_index {
                            self
                        } else {
                            NodeModel {
                                change: Some(
                                    ChangeModel {
                                        joint_index: Some((self.log.last_index() + 1) as u64),
                                        ..c
                                    },
                                ),
                                ..self.append_as_leader(PayloadModel::ConfigChange(c.joint))
                            }
                        }
                    },
                    Some(i) => {
                        if self.state.last_applied < i {
                            self
                        } else {
                            NodeModel {
                                change: None,
                                ..self.append_as_leader(PayloadModel::ConfigChange(c.target))
                            }
                        }
                    },
                },
            }
        }
    }
}

/// The highest committable index is the commit index or an index that the
/// leader may commit up to.
pub proof fn lemma_highest_committable_is(n: NodeModel, index: int)
    ensures
        n.highest_committable(index) == n.commit_index || (n.commit_index < n.highest_committable(
            index,
        ) <= index && n.committable(n.highest_committable(index))),
    decreases index - n.commit_index,
{
    if index > n.commit_index && !n.committable(index) {
        lemma_highest_committable_is(n, index - 1);
    }
}

/// Moving the commit index changes nothing else, and moves it only to an
/// entry of the leader's own term that a quorum holds.
pub proof fn lemma_advance_commit(n: NodeModel)
    requires
        n.log.wf(),
    ensures
        ({
            let m = n.advance_commit();
            &&& m == (NodeModel { commit_index: m.commit_index, ..n })
            &&& m.commit_index == n.commit_index || {
                &&& n.role == Role::Leader
                &&& n.commit_index < m.commit_index <= n.log.last_index()
                &&& n.log.term_at(m.commit_index as int) == Some(n.term())
                &&& n.membership.is_quorum(m.acks(m.commit_index as int))
            }
        }),
{
    let m = n.advance_commit();
    lemma_highest_committable_is(n, n.log.last_index());
    let r = n.highest_committable(n.log.last_index());
    if n.role == Role::Leader && r != n.commit_index {
        assert(m.acks(r) =~= n.acks(r));
    }
}

/// Applying the entries up to `upto` leaves the state at `upto`, and tells
/// of each entry what it did, in the order of the indexes.
pub proof fn lemma_apply_in_order(state: StateModel, log: LogModel, upto: int)
    requires
        log.wf(),
        log.base_index <= state.last_applied <= upto <= log.last_index(),
    ensures
        apply_upto(state, log, upto).0.last_applied == upto,
        apply_upto(state, log, upto).1.len() == upto - state.last_applied,
        forall|k: int|
            0 <= k < upto - state.last_applied ==> (#[trigger] apply_upto(state, log, upto).1[k]).0
                == state.last_applied + 1 + k,
    decreases upto - state.last_applied,
{
    if upto > state.last_applied {
        lemma_apply_in_order(state, log, upto - 1);
        let (before, results) = apply_upto(state, log, upto - 1);
        assert(log.at(upto).index == upto);
        assert forall|k: int| 0 <= k < upto - state.last_applied implies (#[trigger] apply_upto(
            state,
            log,
            upto,
        ).1[k]).0 == state.last_applied + 1 + k by {
            if k < upto - 1 - state.last_applied {
                assert(apply_upto(state, log, upto).1[k] == results[k]);
            }
        }
    }
}

/// Applying entries that carry no membership leaves the membership as it
/// was, and leaves the state with the term of the last entry applied.
pub proof fn lemma_apply_plain(state: StateModel, log: LogModel, upto: int)
    requires
        log.wf(),
        log.base_index <= state.last_applied <= upto <= log.last_index(),
        forall|i: int| state.last_applied < i <= upto ==> !(#[trigger] log.at(i).payload
            is ConfigChange),
    ensures
        apply_upto(state, log, upto).0.membership == state.membership,
        upto > state.last_applied ==> apply_upto(state, log, upto).0.last_applied_term == log.at(
            upto,
        ).term,
    decreases upto - state.last_applied,
{
    if upto > state.last_applied {
        lemma_apply_plain(state, log, upto - 1);
        lemma_apply_in_order(state, log, upto - 1);
        assert(log.at(upto).index == upto);
        assert(!(log.at(upto).payload is ConfigChange));
    }
}

/// Two logs that hold the same entries after the last applied one and up
/// to `upto` lead to the same state and the same results.
pub proof fn lemma_apply_same_entries(state: StateModel, a: LogModel, b: LogModel, upto: int)
    requires
        forall|i: int| state.last_applied < i <= upto ==> #[trigger] a.at(i) == b.at(i),
    ensures
        apply_upto(state, a, upto) == apply_upto(state, b, upto),
    decreases upto - state.last_applied,
{
    if upto > state.last_applied {
        lemma_apply_same_entries(state, a, b, upto - 1);
        assert(a.at(upto) == b.at(upto));
    }
}

/// Applying up to an index and then on to a later one gives the state that
/// applying up to the later one gives at once.
pub proof fn lemma_apply_in_steps(state: StateModel, log: LogModel, mid: int, upto: int)
    requires
        log.wf(),
        log.base_index <= state.last_applied <= mid <= upto <= log.last_index(),
    ensures
        apply_upto(apply_upto(state, log, mid).0, log, upto).0 == apply_upto(state, log, upto).0,
    decreases upto - mid,
{
    lemma_apply_in_order(state, log, mid);
    if upto > mid {
        lemma_apply_in_steps(state, log, mid, upto - 1);
    }
}

/// An event at a node: each is one of the node's operations with what
/// it is given.
pub enum Event {
    ElectionTimeout,
    RequestVote { candidate_id: NodeId, term: u64, last_log_index: u64, last_log_term: u64 },
    VoteResult { from: NodeId, result: VoteResult },
    AppendEntries {
        leader_id: NodeId,
        term: u64,
        prev_log_index: u64,
        prev_log_term: u64,
        entries: Seq<EntryModel>,
        leader_commit: u64,
    },
    InstallSnapshot { leader_id: NodeId, term: u64, image: StateModel },
    Propose { payload: PayloadModel },
    AppendResult { from: NodeId, answer: AppendResult },
    ApplyCommitted,
    Compact,
    Join { id: NodeId },
    Leave { id: NodeId },
    ContinueChange,
}

impl NodeModel {
    /// The node after an event.
    pub open spec fn handle(self, event: Event) -> NodeModel {
        match event {
            Event::ElectionTimeout => self.election_timeout(),
            Event::RequestVote { candidate_id, term, last_log_index, last_log_term } => {
                self.request_vote(candidate_id, term, last_log_index, last_log_term).0
            },
            Event::VoteResult { from, result } => self.handle_vote_result(from, result),
            Event::AppendEntries {
                leader_id,
                term,
                prev_log_index,
                prev_log_term,
                entries,
                leader_commit,
            } => self.append_entries(
                leader_id,
                term,
                prev_log_index,
                prev_log_term,
                entries,
                leader_commit,
            ).0,
            Event::InstallSnapshot { leader_id, term, image } => self.install_snapshot(
                leader_id,
                term,
                image,
            ).0,
            Event::Propose { payload } => self.propose(payload).0,
            Event::AppendResult { from, answer } => self.handle_append_result(from, answer),
            Event::ApplyCommitted => self.apply_committed().0,
            Event::Compact => self.compact(),
            Event::Join { id } => self.join(id).0,
            Event::Leave { id } => self.leave(id).0,
            Event::ContinueChange => self.continue_change(),
        }
    }
}

/// Whether `after` holds every entry of `before` that it has not compacted
/// away, unchanged, and reaches at least as far.
pub open spec fn retains(before: LogModel, after: LogModel) -> bool {
    &&& after.base_index >= before.base_index
    &&& after.last_index() >= before.last_index()
    &&& forall|i: int|
        before.has(i) && i > after.base_index ==> after.has(i) && #[trigger] after.at(i)
            == before.at(i)
}

/// Leader append-only: whatever happens at a leader, as long as it stays in
/// its term it stays the leader, and its log keeps every entry unchanged:
/// entries are added at the end, and taken away only by compaction, which
/// moves what was applied into the image. Nothing but compaction changes
/// the base of the log.
pub proof fn lemma_leader_append_only(n: NodeModel, event: Event)
    requires
        n.wf(),
        n.role == Role::Leader,
        n.handle(event).term() == n.term(),
    ensures
        n.handle(event).role == Role::Leader,
        retains(n.log, n.handle(event).log),
        !(event is Compact) ==> n.handle(event).log.base_index == n.log.base_index,
{
    let m = n.handle(event);
    match event {
        Event::ElectionTimeout => {},
        Event::RequestVote { .. } => {},
        Event::VoteResult { .. } => {},
        Event::AppendEntries { .. } => {},
        Event::InstallSnapshot { .. } => {},
        Event::Propose { .. } => {
            if m.log != n.log {
                assert forall|i: int| n.log.has(i) implies m.log.has(i) && #[trigger] m.log.at(i)
                    == n.log.at(i) by {}
            }
        },
        Event::AppendResult { .. } => {},
        Event::ApplyCommitted => {},
        Event::Compact => {
            if m.log != n.log {
                assert forall|i: int| n.log.has(i) && i > m.log.base_index implies m.log.has(i)
                    && #[trigger] m.log.at(i) == n.log.at(i) by {}
            }
        },
        Event::Join { .. } => {},
        Event::Leave { .. } => {
            if m.log != n.log {
                assert forall|i: int| n.log.has(i) implies m.log.has(i) && #[trigger] m.log.at(i)
                    == n.log.at(i) by {}
            }
        },
        Event::ContinueChange => {
            if m.log != n.log {
                assert forall|i: int| n.log.has(i) implies m.log.has(i) && #[trigger] m.log.at(i)
                    == n.log.at(i) by {}
            }
        },
    }
}

} // verus!
