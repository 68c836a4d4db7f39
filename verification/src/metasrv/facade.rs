//! The store as clients see it: writes go to the consensus core on the
//! leader and are answered with a redirect anywhere else; reads are served
//! from the local state, at once or after the leader has confirmed that it
//! still leads.

use crate::metasrv::id_map::IdMap;
use crate::metasrv::membership::{Membership, NodeId};
use crate::metasrv::messages::{AppendResult, MembershipError, ProposeError};
use crate::metasrv::node::Node;
use crate::metasrv::node_model::{NodeModel, Role};
use crate::metasrv::state_machine::{AppliedResult, KvRecord};
use crate::metasrv::types::{Payload, PayloadModel, WriteOp};
use vstd::prelude::*;

verus! {

/// What a client is told when its request was not served.
#[derive(Debug, PartialEq, Eq)]
pub enum ClientError {
    /// This node is not the leader: the address of the leader it knows of,
    /// if any, for the client to try again there.
    NotLeader { leader_hint: Option<String> },
    /// The key's version was not the expected one.
    VersionMismatch,
    /// The request cannot be served now.
    Unavailable,
}

/// A `ClientError` with the address taken by its characters.
pub enum ClientErrorModel {
    NotLeader { leader_hint: Option<Seq<char>> },
    VersionMismatch,
    Unavailable,
}

impl View for ClientError {
    type V = ClientErrorModel;

    open spec fn view(&self) -> ClientErrorModel {
        match self {
            ClientError::NotLeader { leader_hint } => ClientErrorModel::NotLeader {
                leader_hint: match leader_hint {
                    Some(a) => Some(a@),
                    None => None,
                },
            },
            ClientError::VersionMismatch => ClientErrorModel::VersionMismatch,
            ClientError::Unavailable => ClientErrorModel::Unavailable,
        }
    }
}

/// What a write did, as its client is told once the write was applied.
#[derive(Clone, Copy, Debug, PartialEq, Eq, Structural)]
pub enum WriteReply {
    /// The key was written and now has this version.
    Written { version: u64 },
    /// The key is gone; `existed` says whether it had a live value.
    Deleted { existed: bool },
}

/// How a read is to be served.
#[derive(Clone, Copy, Debug, PartialEq, Eq, Structural)]
pub enum ReadMode {
    /// From the local state as it is: fast, and possibly stale.
    Local,
    /// From the local state once it holds everything that was committed
    /// when the read began, on a node that was the leader then.
    Linearizable,
}

/// A read that waits for the leader to confirm that it still leads.
#[derive(Debug)]
pub struct ReadTicket {
    /// The leader's term when the read began.
    pub term: u64,
    /// The commit index when the read began: the read may be served once
    /// the state holds every entry up to it.
    pub read_index: u64,
    /// The voters that have confirmed the leader since the read began.
    pub acks: Vec<NodeId>,
}

/// How far a read that waits for confirmation has come.
#[derive(Clone, Copy, Debug, PartialEq, Eq, Structural)]
pub enum ReadStatus {
    /// A quorum has not confirmed the leader yet, or the state is behind
    /// the read index.
    Pending,
    /// The read may be served from the local state.
    Ready,
    /// The node is no longer the leader of the ticket's term.
    Lost,
}

/// What the client of a write is told for what applying its entry did.
pub open spec fn spec_write_reply(applied: AppliedResult) -> Result<WriteReply, ClientErrorModel> {
    match applied {
        AppliedResult::Written { version } => Ok(WriteReply::Written { version }),
        AppliedResult::Deleted { existed } => Ok(WriteReply::Deleted { existed }),
        AppliedResult::VersionMismatch { .. } => Err(ClientErrorModel::VersionMismatch),
        _ => Err(ClientErrorModel::Unavailable),
    }
}

/// What the client of a write is told for what applying its entry did.
pub fn write_reply(applied: AppliedResult) -> (r: Result<WriteReply, ClientError>)
    ensures
        match r {
            Ok(reply) => spec_write_reply(applied) == Ok::<WriteReply, ClientErrorModel>(reply),
            Err(e) => spec_write_reply(applied) == Err::<WriteReply, ClientErrorModel>(e@),
        },
{
    match applied {
        AppliedResult::Written { version } => Ok(WriteReply::Written { version }),
        AppliedResult::Deleted { existed } => Ok(WriteReply::Deleted { existed }),
        AppliedResult::VersionMismatch { .. } => Err(ClientError::VersionMismatch),
        _ => Err(ClientError::Unavailable),
    }
}

/// The node-local store: the consensus core and the addresses of the nodes
/// of the cluster.
#[derive(Debug)]
pub struct MetaStore {
    /// The consensus core: the events of the protocol are calls on it.
    pub node: Node,
    /// The addresses of the nodes of the cluster, by id.
    pub addresses: IdMap<String>,
}

/// What a `MetaStore` holds.
pub struct MetaStoreModel {
    pub node: NodeModel,
    pub addresses: Map<NodeId, Seq<char>>,
}

impl View for MetaStore {
    type V = MetaStoreModel;

    open spec fn view(&self) -> MetaStoreModel {
        MetaStoreModel {
            node: self.node@,
            addresses: self.addresses@.map_values(|a: String| a@),
        }
    }
}

impl MetaStoreModel {
    /// The address of the leader that the node knows of, if it knows one
    /// and its address.
    pub open spec fn leader_hint(self) -> Option<Seq<char>> {
        match self.node.leader_id {
            Some(l) => if self.addresses.contains_key(l) {
                Some(self.addresses[l])
            } else {
                None
            },
            None => None,
        }
    }

    /// Whether the node may begin a read that waits for confirmation: it
    /// is the leader and has committed an entry of its own term.
    pub open spec fn can_begin_read(self) -> bool {
        self.node.role == Role::Leader && self.node.log.term_at(self.node.commit_index as int)
            == Some(self.node.term())
    }

    /// How far a read that began on this node has come.
    pub open spec fn read_status(self, term: u64, read_index: u64, acks: Set<NodeId>) -> ReadStatus {
        if self.node.role != Role::Leader || self.node.term() != term {
            ReadStatus::Lost
        } else if self.node.membership.is_quorum(acks) && self.node.state.last_applied
            >= read_index {
            ReadStatus::Ready
        } else {
            ReadStatus::Pending
        }
    }
}

impl MetaStore {
    /// The node and the map of addresses are well-formed.
    pub open spec fn wf(&self) -> bool {
        &&& self.node.wf()
        &&& self.addresses.wf()
    }

    /// A store on a node that starts as a follower in term 0.
    pub fn new(id: NodeId, membership: Membership) -> (s: MetaStore)
        ensures
            s.wf(),
            s@.node == NodeModel::initial(id, membership@),
            s@.addresses == Map::<NodeId, Seq<char>>::empty(),
    {
        let s = MetaStore { node: Node::new(id, membership), addresses: IdMap::new() };
        proof {
            assert(s@.addresses =~= Map::<NodeId, Seq<char>>::empty());
        }
        s
    }

    /// Records the address of a node.
    pub fn set_address(&mut self, id: NodeId, address: String)
        requires
            old(self).wf(),
        ensures
            final(self).wf(),
            final(self)@.node == old(self)@.node,
            final(self)@.addresses == old(self)@.addresses.insert(id, address@),
    {
        self.addresses.insert(id, address);
        proof {
            assert(final(self)@.addresses =~= old(self)@.addresses.insert(id, address@));
        }
    }

    /// The address of the leader that the node knows of.
    pub fn leader_hint(&self) -> (hint: Option<String>)
        requires
            self.wf(),
        ensures
            match hint {
                Some(a) => self@.leader_hint() == Some(a@),
                None => self@.leader_hint() is None,
            },
    {
        match self.node.leader_id() {
            Some(l) => match self.addresses.get(l) {
                Some(a) => Some(a.clone()),
                None => None,
            },
            None => None,
        }
    }

    /// A client's write, with the time that the leader gives it. On the
    /// leader the write is proposed and the index of its entry returned:
    /// the client is answered once `apply_committed` reports that index.
    /// Anywhere else the client is sent to the leader.
    pub fn write(&mut self, op: WriteOp, now: u64) -> (r: Result<u64, ClientError>)
        requires
            old(self).wf(),
        ensures
            final(self).wf(),
            final(self)@.addresses == old(self)@.addresses,
            final(self)@.node == old(self)@.node.propose(
                PayloadModel::ClientWrite { op: op@, time: now },
            ).0,
            match r {
                Ok(index) => old(self)@.node.propose(
                    PayloadModel::ClientWrite { op: op@, time: now },
                ).1 == Ok::<u64, ProposeError>(index),
                Err(e) => match old(self)@.node.propose(
                    PayloadModel::ClientWrite { op: op@, time: now },
                ).1 {
                    Ok(_) => false,
                    Err(ProposeError::NotLeader { .. }) => e@ == (ClientErrorModel::NotLeader {
                        leader_hint: old(self)@.leader_hint(),
                    }),
                    Err(ProposeError::Unavailable) => e@ == ClientErrorModel::Unavailable,
                },
            },
    {
        let hint = self.leader_hint();
        match self.node.propose(Payload::ClientWrite { op, time: now }) {
            Ok(index) => Ok(index),
            Err(ProposeError::NotLeader { .. }) => Err(ClientError::NotLeader { leader_hint: hint }),
            Err(ProposeError::Unavailable) => Err(ClientError::Unavailable),
        }
    }

    /// Serves a read from the local state as it is now. With
    /// `ReadMode::Linearizable` the read is served only on a node whose
    /// state holds every entry up to `read_index`, the index that the
    /// leader confirmed for the read; a node that is behind answers that
    /// the read cannot be served yet.
    pub fn read(&self, key: &String, now: u64, mode: ReadMode, read_index: u64) -> (r: Result<
        Option<KvRecord>,
        ClientError,
    >)
        requires
            self.wf(),
        ensures
            match r {
                Ok(Some(record)) => (mode == ReadMode::Local || self@.node.state.last_applied
                    >= read_index) && self@.node.state.get(key@, now) == Some(record@),
                Ok(None) => (mode == ReadMode::Local || self@.node.state.last_applied
                    >= read_index) && self@.node.state.get(key@, now) is None,
                Err(e) => mode == ReadMode::Linearizable && self@.node.state.last_applied
                    < read_index && e@ == ClientErrorModel::Unavailable,
            },
    {
        match mode {
            ReadMode::Local => {},
            ReadMode::Linearizable => {
                if self.node.last_applied() < read_index {
                    return Err(ClientError::Unavailable);
                }
            },
        }
        Ok(self.node.state_machine().get(key, now))
    }

    /// Begins a read that is to see every write that was acknowledged
    /// before it. Only a leader that has committed an entry of its own term
    /// can begin one; the ticket holds the commit index as the read index
    /// and the leader's own confirmation.
    pub fn begin_read(&self) -> (r: Result<ReadTicket, ClientError>)
        requires
            self.wf(),
        ensures
            match r {
                Ok(ticket) => {
                    &&& self@.can_begin_read()
                    &&& ticket.term == self@.node.term()
                    &&& ticket.read_index == self@.node.commit_index
                    &&& ticket.acks@ == seq![self@.node.id]
                },
                Err(e) => !self@.can_begin_read() && e@ == if self@.node.role == Role::Leader {
                    ClientErrorModel::Unavailable
                } else {
                    ClientErrorModel::NotLeader { leader_hint: self@.leader_hint() }
                },
            },
    {
        if self.node.role() != Role::Leader {
            return Err(ClientError::NotLeader { leader_hint: self.leader_hint() });
        }
        let term = self.node.current_term();
        let commit = self.node.commit_index();
        if self.node.store().term_at(commit) != Some(term) {
            return Err(ClientError::Unavailable);
        }
        let mut acks: Vec<NodeId> = Vec::new();
        acks.push(self.node.id());
        Ok(ReadTicket { term, read_index: commit, acks })
    }

    /// Counts a peer's answer to a request that the leader sent after the
    /// read began: an answer of the ticket's term confirms the leader.
    pub fn confirm_read(&self, ticket: &mut ReadTicket, from: NodeId, result: AppendResult)
        ensures
            final(ticket).term == old(ticket).term,
            final(ticket).read_index == old(ticket).read_index,
            final(ticket).acks@.to_set() == if result.term == old(ticket).term {
                old(ticket).acks@.to_set().insert(from)
            } else {
                old(ticket).acks@.to_set()
            },
    {
        if result.term == ticket.term {
            proof {
                crate::metasrv::node::lemma_push_to_set(ticket.acks@, from);
            }
            ticket.acks.push(from);
        }
    }

    /// How far a read has come: it is ready once a quorum has confirmed the
    /// leader of the ticket's term and the state holds every entry up to
    /// the read index, and lost once the node is no longer that leader.
    pub fn read_status(&self, ticket: &ReadTicket) -> (status: ReadStatus)
        requires
            self.wf(),
        ensures
            status == self@.read_status(ticket.term, ticket.read_index, ticket.acks@.to_set()),
    {
        if self.node.role() != Role::Leader || self.node.current_term() != ticket.term {
            ReadStatus::Lost
        } else if self.node.membership().is_quorum(&ticket.acks) && self.node.last_applied()
            >= ticket.read_index {
            ReadStatus::Ready
        } else {
            ReadStatus::Pending
        }
    }

    /// A request to add a node at the given address. The leader records
    /// the address and begins the change; any other node sends the client
    /// to the leader.
    pub fn join(&mut self, id: NodeId, address: String) -> (r: Result<(), ClientError>)
        requires
            old(self).wf(),
        ensures
            final(self).wf(),
            final(self)@.node == old(self)@.node.join(id).0,
            match r {
                Ok(()) => old(self)@.node.join(id).1 is Ok && final(self)@.addresses == old(
                    self,
                )@.addresses.insert(id, address@),
                Err(e) => final(self)@.addresses == old(self)@.addresses && match old(
                    self,
                )@.node.join(id).1 {
                    Ok(_) => false,
                    Err(MembershipError::NotLeader { .. }) => e@ == (ClientErrorModel::NotLeader {
                        leader_hint: old(self)@.leader_hint(),
                    }),
                    Err(_) => e@ == ClientErrorModel::Unavailable,
                },
            },
    {
        let hint = self.leader_hint();
        match self.node.join(id) {
            Ok(()) => {
                self.addresses.insert(id, address);
                proof {
                    assert(final(self)@.addresses =~= old(self)@.addresses.insert(id, address@));
                }
                Ok(())
            },
            Err(MembershipError::NotLeader { .. }) => Err(ClientError::NotLeader { leader_hint: hint }),
            Err(_) => Err(ClientError::Unavailable),
        }
    }

    /// A request to remove a node. The leader begins the change; any other
    /// node sends the client to the leader.
    pub fn leave(&mut self, id: NodeId) -> (r: Result<(), ClientError>)
        requires
            old(self).wf(),
        ensures
            final(self).wf(),
            final(self)@.addresses == old(self)@.addresses,
            final(self)@.node == old(self)@.node.leave(id).0,
            match r {
                Ok(()) => old(self)@.node.leave(id).1 is Ok,
                Err(e) => match old(self)@.node.leave(id).1 {
                    Ok(_) => false,
                    Err(MembershipError::NotLeader { .. }) => e@ == (ClientErrorModel::NotLeader {
                        leader_hint: old(self)@.leader_hint(),
                    }),
                    Err(_) => e@ == ClientErrorModel::Unavailable,
                },
            },
    {
        let hint = self.leader_hint();
        match self.node.leave(id) {
            Ok(()) => Ok(()),
            Err(MembershipError::NotLeader { .. }) => Err(ClientError::NotLeader { leader_hint: hint }),
            Err(_) => Err(ClientError::Unavailable),
        }
    }
}

} // verus!
