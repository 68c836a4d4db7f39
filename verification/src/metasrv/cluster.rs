//! A cluster as a value: its nodes, the messages that were ever sent, and
//! a record of the elections that were won. Every step of the cluster is
//! one event at one node. Messages are never taken out of the network, so
//! that each may be delivered late, more than once, or never.
//!
//! The cluster modelled here has a fixed membership: no step proposes a
//! change of membership. The membership may be a joint one, of which a
//! quorum is a majority of both sets.

use crate::metasrv::log_store::LogModel;
use crate::metasrv::membership::{MembershipModel, NodeId};
use crate::metasrv::messages::{AppendResult, VoteRequest, VoteResult};
use crate::metasrv::node_model::{NodeModel, ReplicationModel, Role};
use crate::metasrv::state_machine::StateModel;
use crate::metasrv::types::{EntryModel, PayloadModel};
use vstd::prelude::*;

verus! {

/// The answer to a request for a vote, on its way from the voter to the
/// candidate.
pub struct VoteMsg {
    pub from: NodeId,
    pub to: NodeId,
    pub result: VoteResult,
}

/// The answer to a request to append entries, on its way back to the
/// leader.
pub struct AppendAnswer {
    pub from: NodeId,
    pub result: AppendResult,
}

/// A request to append entries, as a leader sent it.
#[verifier::ext_equal]
pub struct AppendMsg {
    pub term: u64,
    pub leader_id: NodeId,
    pub prev_log_index: u64,
    pub prev_log_term: u64,
    pub entries: Seq<EntryModel>,
    pub leader_commit: u64,
}

/// A request to install an image of the state machine, as a leader sent
/// it. The request does not carry the entries that the image includes;
/// they are on record here.
#[verifier::ext_equal]
pub struct SnapshotMsg {
    pub term: u64,
    pub leader_id: NodeId,
    pub image: StateModel,
    /// The entries that the image includes, from index 1 on.
    pub prefix: Seq<EntryModel>,
}

/// The log that holds the entries from index 1 on, none of them compacted
/// away.
pub open spec fn whole(entries: Seq<EntryModel>) -> LogModel {
    LogModel { base_index: 0, base_term: 0, entries }
}

/// A cluster.
#[verifier::ext_equal]
pub struct ClusterModel {
    /// The membership, which does not change.
    pub config: MembershipModel,
    /// The nodes, by id.
    pub nodes: Map<NodeId, NodeModel>,
    /// Every request for a vote that was ever sent.
    pub vote_requests: Set<VoteRequest>,
    /// Every answer to a request for a vote that was ever sent, and the
    /// vote that each candidate gave itself.
    pub vote_results: Set<VoteMsg>,
    /// Every request to append entries that was ever sent.
    pub appends: Set<AppendMsg>,
    /// Every answer to a request to append entries or to install an image
    /// that was ever sent.
    pub append_results: Set<AppendAnswer>,
    /// Every request to install an image that was ever sent.
    pub snapshots: Set<SnapshotMsg>,
    /// The elections that were won: the term and the winner.
    pub elected: Set<(u64, NodeId)>,
    /// The voters that each winner counted when it won.
    pub electors: Map<(u64, NodeId), Set<NodeId>>,
    /// For each term in which an election was won, a winner of it.
    pub winner: Map<u64, NodeId>,
    /// For each term in which an election was won, the winner's log as it
    /// was when the winner last added to it as the leader of that term.
    pub term_log: Map<u64, Seq<EntryModel>>,
    /// For each term and each node that stood for election in it, the
    /// node's log when it did.
    pub candidacy_log: Map<(u64, NodeId), Seq<EntryModel>>,
    /// For each term and each node that gave a vote in it before its
    /// election was won, the node's log when it first did.
    pub vote_log: Map<(u64, NodeId), Seq<EntryModel>>,
    /// The entries that were ever applied: the node, the index and the
    /// entry.
    pub applied: Set<(NodeId, int, EntryModel)>,
    /// For each node, its whole log: the entries that it holds, and before
    /// them the entries that it has compacted away.
    pub full: Map<NodeId, Seq<EntryModel>>,
}

/// One event at one node.
pub enum Step {
    /// The node's election timer fires.
    Timeout { node: NodeId },
    /// A request for a vote reaches the node.
    RequestVote { node: NodeId, ask: VoteRequest },
    /// An answer to a request for a vote reaches the candidate it is for.
    VoteResult { node: NodeId, vote: VoteMsg },
    /// A client's write or an empty entry is proposed at the node.
    Propose { node: NodeId, payload: PayloadModel },
    /// The node, if it leads, sends a peer the entries that the peer lacks.
    Replicate { node: NodeId, peer: NodeId },
    /// A request to append entries reaches the node.
    AppendEntries { node: NodeId, request: AppendMsg },
    /// An answer to a request to append entries reaches the node.
    AppendResult { node: NodeId, answer: AppendAnswer },
    /// The node applies what it has committed.
    Apply { node: NodeId },
    /// The node crashes and starts again with its log, its image and its
    /// hard state.
    Restart { node: NodeId },
    /// The node compacts its log: its state becomes its image.
    Compact { node: NodeId },
    /// A request to install an image reaches the node.
    InstallSnapshot { node: NodeId, request: SnapshotMsg },
}

impl Step {
    /// The node at which the event happens.
    pub open spec fn node(self) -> NodeId {
        match self {
            Step::Timeout { node } => node,
            Step::RequestVote { node, .. } => node,
            Step::VoteResult { node, .. } => node,
            Step::Propose { node, .. } => node,
            Step::Replicate { node, .. } => node,
            Step::AppendEntries { node, .. } => node,
            Step::AppendResult { node, .. } => node,
            Step::Apply { node } => node,
            Step::Restart { node } => node,
            Step::Compact { node } => node,
            Step::InstallSnapshot { node, .. } => node,
        }
    }
}

impl ClusterModel {
    /// A cluster in which every node starts as a follower with an empty
    /// log, nothing was sent and no election was won.
    pub open spec fn init(self) -> bool {
        &&& self.config.wf()
        &&& forall|i: NodeId| #[trigger]
            self.nodes.contains_key(i) ==> self.nodes[i] == NodeModel::initial(i, self.config)
        &&& self.vote_requests == Set::<VoteRequest>::empty()
        &&& self.vote_results == Set::<VoteMsg>::empty()
        &&& self.appends == Set::<AppendMsg>::empty()
        &&& self.append_results == Set::<AppendAnswer>::empty()
        &&& self.snapshots == Set::<SnapshotMsg>::empty()
        &&& self.elected == Set::<(u64, NodeId)>::empty()
        &&& self.electors == Map::<(u64, NodeId), Set<NodeId>>::empty()
        &&& self.winner == Map::<u64, NodeId>::empty()
        &&& self.term_log == Map::<u64, Seq<EntryModel>>::empty()
        &&& self.candidacy_log == Map::<(u64, NodeId), Seq<EntryModel>>::empty()
        &&& self.vote_log == Map::<(u64, NodeId), Seq<EntryModel>>::empty()
        &&& self.applied == Set::<(NodeId, int, EntryModel)>::empty()
        &&& forall|i: NodeId| #[trigger]
            self.nodes.contains_key(i) ==> self.full.contains_key(i) && self.full[i]
                == Seq::<EntryModel>::empty()
    }

    /// Whether the voter gave the candidate its vote in the term.
    pub open spec fn granted(self, term: u64, from: NodeId, to: NodeId) -> bool {
        self.vote_results.contains(
            VoteMsg { from, to, result: VoteResult { term, vote_granted: true } },
        )
    }

    /// Whether the event can happen: its node is in the cluster, what
    /// reaches the node was sent, an answer to a request for a vote was sent
    /// to that node, and a proposal carries no membership.
    pub open spec fn enabled(self, step: Step) -> bool {
        &&& self.nodes.contains_key(step.node())
        &&& match step {
            Step::RequestVote { ask, .. } => self.vote_requests.contains(ask),
            Step::VoteResult { node, vote } => self.vote_results.contains(vote) && vote.to == node,
            Step::AppendResult { answer, .. } => self.append_results.contains(answer),
            Step::InstallSnapshot { request, .. } => self.snapshots.contains(request),
            Step::AppendEntries { request, .. } => self.appends.contains(request),
            Step::Propose { payload, .. } => !(payload is ConfigChange),
            _ => true,
        }
    }

    /// The node with its whole log in place of the log that it holds.
    pub open spec fn whole_node(self, node: NodeId) -> NodeModel {
        NodeModel { log: whole(self.full[node]), ..self.nodes[node] }
    }

    /// The node after a request to install an image, and its answer.
    pub open spec fn install_answer(self, node: NodeId, request: SnapshotMsg) -> (
        NodeModel,
        AppendResult,
    ) {
        self.nodes[node].install_snapshot(request.leader_id, request.term, request.image)
    }

    /// The answer that the event's node sends to a leader, if the event is
    /// a request of a leader that reaches the node.
    pub open spec fn answer_of(self, step: Step) -> Option<AppendResult> {
        match step {
            Step::AppendEntries { node, request } => Some(self.append_answer(node, request)),
            Step::InstallSnapshot { node, request } => Some(self.install_answer(node, request).1),
            _ => None,
        }
    }

    /// Whether the node takes the image of the request: the request is not
    /// of an earlier term, the node does not lead in the request's term,
    /// and the image reaches further than the node has committed.
    pub open spec fn installs(self, node: NodeId, request: SnapshotMsg) -> bool {
        let n = self.nodes[node];
        &&& request.term >= n.term()
        &&& !(request.term == n.term() && n.role == Role::Leader)
        &&& request.image.last_applied > n.commit_index
    }

    /// Whether the node that takes the image keeps what its log holds after
    /// the image: it does if it holds the last entry that the image
    /// includes. If not, it empties its log.
    pub open spec fn keeps_log(self, node: NodeId, request: SnapshotMsg) -> bool {
        let n = self.nodes[node];
        let last = request.image.last_applied;
        last < u64::MAX && n.log.has(last as int) && n.log.term_at(last as int) == Some(
            request.image.last_applied_term,
        )
    }

    /// The whole log of the event's node after the event: what the node
    /// had compacted away, and after it what the node holds; or, where the
    /// node took an image and emptied its log, the entries that the image
    /// includes.
    pub open spec fn full_after(self, step: Step) -> Seq<EntryModel> {
        let after = self.node_after(step);
        match step {
            Step::InstallSnapshot { node, request } => if self.installs(node, request)
                && !self.keeps_log(node, request) {
                request.prefix
            } else {
                self.full[node]
            },
            _ => self.full[step.node()].take(after.log.base_index as int) + after.log.entries,
        }
    }

    /// The node after a request for a vote, and its answer.
    pub open spec fn vote_answer(self, node: NodeId, ask: VoteRequest) -> (NodeModel, VoteResult) {
        self.nodes[node].request_vote(
            ask.candidate_id,
            ask.term,
            ask.last_log_index,
            ask.last_log_term,
        )
    }

    /// The node's answer to a request to append entries.
    pub open spec fn append_answer(self, node: NodeId, request: AppendMsg) -> AppendResult {
        self.nodes[node].append_entries(
            request.leader_id,
            request.term,
            request.prev_log_index,
            request.prev_log_term,
            request.entries,
            request.leader_commit,
        ).1
    }

    /// The request for a vote that the node sends when it stands for
    /// election.
    pub open spec fn candidacy(self, node: NodeId) -> VoteRequest {
        let n = self.nodes[node];
        VoteRequest {
            term: (n.term() + 1) as u64,
            candidate_id: node,
            last_log_index: n.log.last_index() as u64,
            last_log_term: n.log.last_term(),
        }
    }

    /// Whether the event is a vote that is given before the election of
    /// its term is won, by a node that has given none in the term yet: the
    /// vote that a node gives itself when it stands, or the vote that a
    /// node gives when asked. If so, the term of the vote.
    pub open spec fn early_vote(self, step: Step) -> Option<u64> {
        let n = self.nodes[step.node()];
        let term = match step {
            Step::Timeout { .. } => if n.can_stand() {
                Some((n.term() + 1) as u64)
            } else {
                None
            },
            Step::RequestVote { node, ask } => if self.vote_answer(node, ask).1.vote_granted {
                Some(ask.term)
            } else {
                None
            },
            _ => None,
        };
        match term {
            Some(t) => if !self.term_log.contains_key(t) && !self.vote_log.contains_key(
                (t, step.node()),
            ) {
                Some(t)
            } else {
                None
            },
            None => None,
        }
    }

    /// The node after the event.
    pub open spec fn node_after(self, step: Step) -> NodeModel {
        let n = self.nodes[step.node()];
        match step {
            Step::Timeout { .. } => n.election_timeout(),
            Step::RequestVote { ask, .. } => self.vote_answer(step.node(), ask).0,
            Step::VoteResult { vote, .. } => n.handle_vote_result(vote.from, vote.result),
            Step::Propose { payload, .. } => n.propose(payload).0,
            Step::Replicate { .. } => n,
            Step::AppendEntries { request, .. } => n.append_entries(
                request.leader_id,
                request.term,
                request.prev_log_index,
                request.prev_log_term,
                request.entries,
                request.leader_commit,
            ).0,
            Step::AppendResult { answer, .. } => n.handle_append_result(
                answer.from,
                answer.result,
            ),
            Step::Apply { .. } => n.apply_committed().0,
            Step::Restart { .. } => n.restart(self.config),
            Step::Compact { .. } => n.compact(),
            Step::InstallSnapshot { node, request } => self.install_answer(node, request).0,
        }
    }

    /// The answers to requests for votes after the event: the voter's
    /// answer is added, and so is the vote that a new candidate gives
    /// itself.
    pub open spec fn vote_results_after(self, step: Step) -> Set<VoteMsg> {
        let n = self.nodes[step.node()];
        match step {
            Step::Timeout { node } => if n.can_stand() {
                self.vote_results.insert(
                    VoteMsg {
                        from: node,
                        to: node,
                        result: VoteResult { term: (n.term() + 1) as u64, vote_granted: true },
                    },
                )
            } else {
                self.vote_results
            },
            Step::RequestVote { node, ask } => {
                self.vote_results.insert(
                    VoteMsg { from: node, to: ask.candidate_id, result: self.vote_answer(node, ask).1 },
                )
            },
            _ => self.vote_results,
        }
    }

    /// The requests to append entries after the event: what a leader sends
    /// is added.
    pub open spec fn appends_after(self, step: Step) -> Set<AppendMsg> {
        match step {
            Step::Replicate { node, peer } => match self.nodes[node].replicate(peer) {
                Some(
                    ReplicationModel::Append {
                        term,
                        leader_id,
                        prev_log_index,
                        prev_log_term,
                        entries,
                        leader_commit,
                    },
                ) => self.appends.insert(
                    AppendMsg {
                        term,
                        leader_id,
                        prev_log_index,
                        prev_log_term,
                        entries,
                        leader_commit,
                    },
                ),
                _ => self.appends,
            },
            _ => self.appends,
        }
    }

    /// The cluster after the event. The record of elections follows the
    /// node: a node that leads after the event is recorded as the winner
    /// of its term, with the voters it counted if it won just now, and its
    /// log is the log of its term.
    pub open spec fn step(self, step: Step) -> ClusterModel {
        let before = self.nodes[step.node()];
        let after = self.node_after(step);
        let leads = after.role == Role::Leader;
        let won = leads && before.role != Role::Leader;
        ClusterModel {
            config: self.config,
            nodes: self.nodes.insert(step.node(), after),
            vote_requests: match step {
                Step::Timeout { node } => if before.can_stand() {
                    self.vote_requests.insert(self.candidacy(node))
                } else {
                    self.vote_requests
                },
                _ => self.vote_requests,
            },
            vote_results: self.vote_results_after(step),
            appends: self.appends_after(step),
            append_results: match self.answer_of(step) {
                Some(result) => self.append_results.insert(
                    AppendAnswer { from: step.node(), result },
                ),
                None => self.append_results,
            },
            snapshots: match step {
                Step::Replicate { node, peer } => match before.replicate(peer) {
                    Some(ReplicationModel::Snapshot { term, leader_id, image }) => {
                        self.snapshots.insert(
                            SnapshotMsg {
                                term,
                                leader_id,
                                image,
                                prefix: self.full[node].take(before.log.base_index as int),
                            },
                        )
                    },
                    _ => self.snapshots,
                },
                _ => self.snapshots,
            },
            candidacy_log: match step {
                Step::Timeout { node } => if before.can_stand() {
                    self.candidacy_log.insert(
                        ((before.term() + 1) as u64, node),
                        self.full[node],
                    )
                } else {
                    self.candidacy_log
                },
                _ => self.candidacy_log,
            },
            vote_log: match self.early_vote(step) {
                Some(t) => self.vote_log.insert((t, step.node()), self.full[step.node()]),
                None => self.vote_log,
            },
            applied: match step {
                Step::Apply { node } => self.applied.union(
                    Set::new(
                        |a: (NodeId, int, EntryModel)|
                            a.0 == node && before.state.last_applied < a.1 <= before.commit_index
                                && a.2 == before.log.at(a.1),
                    ),
                ),
                Step::InstallSnapshot { node, request } => if self.installs(node, request) {
                    self.applied.union(
                        Set::new(
                            |a: (NodeId, int, EntryModel)|
                                a.0 == node && before.state.last_applied < a.1
                                    <= request.image.last_applied && a.2 == request.prefix[a.1
                                    - 1],
                        ),
                    )
                } else {
                    self.applied
                },
                _ => self.applied,
            },
            elected: if leads {
                self.elected.insert((after.term(), after.id))
            } else {
                self.elected
            },
            electors: if won {
                self.electors.insert((after.term(), after.id), after.votes)
            } else {
                self.electors
            },
            winner: if leads {
                self.winner.insert(after.term(), after.id)
            } else {
                self.winner
            },
            term_log: if leads {
                self.term_log.insert(after.term(), self.full_after(step))
            } else {
                self.term_log
            },
            full: self.full.insert(step.node(), self.full_after(step)),
        }
    }
}

/// The cluster after a sequence of events, the first of them first.
pub open spec fn run(c: ClusterModel, steps: Seq<Step>) -> ClusterModel
    decreases steps.len(),
{
    if steps.len() == 0 {
        c
    } else {
        run(c, steps.drop_last()).step(steps.last())
    }
}

/// Whether each event of a sequence can happen when its turn comes.
pub open spec fn can_run(c: ClusterModel, steps: Seq<Step>) -> bool
    decreases steps.len(),
{
    if steps.len() == 0 {
        true
    } else {
        can_run(c, steps.drop_last()) && run(c, steps.drop_last()).enabled(steps.last())
    }
}

} // verus!
