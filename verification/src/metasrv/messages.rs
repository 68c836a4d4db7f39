//! What nodes say to each other: the requests of the consensus protocol
//! and the answers to them.

use crate::metasrv::membership::NodeId;
use vstd::prelude::*;

verus! {

/// The answer to a request for a vote.
#[derive(Clone, Copy, Debug, PartialEq, Eq, Structural)]
pub struct VoteResult {
    /// The term of the node that answers, after it saw the request.
    pub term: u64,
    /// Whether the node gave its vote.
    pub vote_granted: bool,
}

/// A candidate's request for a vote, as it goes out to one peer.
#[derive(Clone, Copy, Debug, PartialEq, Eq, Structural)]
pub struct VoteRequest {
    pub term: u64,
    pub candidate_id: NodeId,
    pub last_log_index: u64,
    pub last_log_term: u64,
}

/// What became of a request to append entries or to install a snapshot.
#[derive(Clone, Copy, Debug, PartialEq, Eq, Structural)]
pub enum AppendOutcome {
    /// The log now agrees with the leader's up to `match_index`.
    Appended { match_index: u64 },
    /// The request came from an earlier term.
    StaleTerm,
    /// The log has no entry of the given term just before the new entries.
    LogMismatch,
    /// The request cannot come from a correct leader: its entries leave a
    /// gap, it would replace a committed entry, or it reached a leader of
    /// the same term. Nothing was changed.
    Rejected,
}

/// The answer to a request to append entries or to install a snapshot.
#[derive(Clone, Copy, Debug, PartialEq, Eq, Structural)]
pub struct AppendResult {
    /// The term of the node that answers, after it saw the request.
    pub term: u64,
    pub outcome: AppendOutcome,
}

/// Why a proposal was not taken.
#[derive(Clone, Copy, Debug, PartialEq, Eq, Structural)]
pub enum ProposeError {
    /// This node is not the leader; the leader it knows of, if any.
    NotLeader { leader_hint: Option<NodeId> },
    /// The log cannot take another entry.
    Unavailable,
}

/// Why a change of membership did not begin.
#[derive(Clone, Copy, Debug, PartialEq, Eq, Structural)]
pub enum MembershipError {
    /// This node is not the leader; the leader it knows of, if any.
    NotLeader { leader_hint: Option<NodeId> },
    /// An earlier change has not finished.
    InProgress,
    /// The node to add is a member already.
    AlreadyMember,
    /// The node to remove is no member.
    NotMember,
    /// The node to remove is the only member.
    LastMember,
    /// The log cannot take another entry.
    Unavailable,
}

} // verus!
