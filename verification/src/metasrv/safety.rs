//! What holds of every cluster that `ClusterModel` describes, whatever the
//! order of events and whatever the network loses, delays or repeats: at
//! most one leader is elected in a term, and logs that agree on the term
//! of an entry agree on everything up to it.

use crate::metasrv::cluster::{
    can_run, run, whole, AppendMsg, ClusterModel, SnapshotMsg, Step, VoteMsg,
};
use crate::metasrv::log_store::LogModel;
use crate::metasrv::membership::{lemma_majorities_meet, MembershipModel, NodeId};
use crate::metasrv::messages::{AppendOutcome, VoteResult};
use crate::metasrv::node_model::{
    apply_upto, first_conflict, follows, latest_config, lemma_advance_commit,
    lemma_apply_in_order, lemma_apply_plain, lemma_first_conflict, lemma_merged_log, NodeModel,
    Role,
};
use crate::metasrv::state_machine::StateModel;
use crate::metasrv::types::{EntryModel, PayloadModel};
use vstd::prelude::*;

verus! {

/// The entries are numbered from 1 on and carry no membership.
pub open spec fn plain(entries: Seq<EntryModel>) -> bool {
    forall|k: int|
        0 <= k < entries.len() ==> (#[trigger] entries[k]).index == k + 1 && !(
        entries[k].payload is ConfigChange)
}

/// No entry is of a later term than `term`.
pub open spec fn terms_upto(entries: Seq<EntryModel>, term: u64) -> bool {
    forall|k: int| 0 <= k < entries.len() ==> (#[trigger] entries[k]).term <= term
}

/// A log without entries that carry a membership leaves the membership
/// as it was.
pub proof fn lemma_latest_config_plain(entries: Seq<EntryModel>, base: MembershipModel)
    requires
        forall|k: int| 0 <= k < entries.len() ==> !(#[trigger] entries[k].payload is ConfigChange),
    ensures
        latest_config(entries, base) == base,
    decreases entries.len(),
{
    if entries.len() > 0 {
        assert(!(entries[entries.len() - 1].payload is ConfigChange));
        assert forall|k: int| 0 <= k < entries.drop_last().len() implies !(
        #[trigger] entries.drop_last()[k].payload is ConfigChange) by {
            assert(entries.drop_last()[k] == entries[k]);
        }
        lemma_latest_config_plain(entries.drop_last(), base);
    }
}

/// Whether a log is the end of a whole log: it holds the entries of the
/// whole log after its base, and the term of its base is the term of the
/// entry there.
#[verifier::opaque]
pub open spec fn linked(log: LogModel, full: Seq<EntryModel>) -> bool {
    &&& log.wf()
    &&& full.len() == log.base_index + log.entries.len()
    &&& forall|k: int|
        0 <= k < log.entries.len() ==> #[trigger] log.entries[k] == full[log.base_index + k]
    &&& log.base_term == if log.base_index >= 1 {
        full[log.base_index - 1].term
    } else {
        0
    }
}

/// What a log that is the end of a whole log holds, the whole log holds at
/// the same index; the two end at the same index with the same term; and
/// the log knows the term of an entry where the whole log does, from its
/// base on.
pub proof fn lemma_linked(log: LogModel, full: Seq<EntryModel>)
    requires
        linked(log, full),
    ensures
        log.wf(),
        log.last_index() == full.len(),
        log.base_index <= full.len() <= u64::MAX,
        forall|i: int| #[trigger] log.has(i) ==> 1 <= i <= full.len() && log.at(i) == full[i - 1],
        forall|i: int|
            log.base_index < i <= full.len() ==> #[trigger] log.has(i) && log.at(i) == full[i - 1],
        log.last_term() == whole(full).last_term(),
        forall|i: int|
            log.base_index <= i ==> #[trigger] log.term_at(i) == whole(full).term_at(i),
        full.take(log.base_index as int) + log.entries == full,
        log.base_term == if log.base_index >= 1 {
            full[log.base_index - 1].term
        } else {
            0
        },
{
    reveal(linked);
    assert forall|i: int| #[trigger] log.has(i) implies 1 <= i <= full.len() && log.at(i)
        == full[i - 1] by {
        assert(log.entries[i - log.base_index - 1] == full[log.base_index + (i - log.base_index
            - 1)]);
    }
    assert forall|i: int| log.base_index <= i implies #[trigger] log.term_at(i) == whole(
        full,
    ).term_at(i) by {
        if log.has(i) {
            assert(log.at(i) == full[i - 1]);
        }
    }
    if log.entries.len() > 0 {
        assert(log.has(log.last_index()));
    }
    assert(full.take(log.base_index as int) + log.entries =~= full);
}

/// A log that drops the entries before an index stays the end of its whole
/// log.
pub proof fn lemma_purge_linked(log: LogModel, full: Seq<EntryModel>, index: int)
    requires
        linked(log, full),
        log.has(index - 1),
    ensures
        linked(log.purge_before(index), full),
        log.purge_before(index).base_index == index - 1,
        log.purge_before(index).base_term == full[index - 2].term,
{
    reveal(linked);
    let cut = log.purge_before(index);
    let base = log.base_index as int;
    assert(log.at(index - 1) == log.entries[index - 2 - base]);
    assert forall|k: int| 0 <= k < cut.entries.len() implies #[trigger] cut.entries[k]
        == full[cut.base_index + k] by {
        assert(cut.entries[k] == log.entries[k + (index - 1 - base)]);
    }
    assert forall|k: int| 0 <= k < cut.entries.len() implies (#[trigger] cut.entries[k]).index
        == cut.base_index + 1 + k by {
        assert(cut.entries[k] == log.entries[k + (index - 1 - base)]);
    }
}

/// A whole log is the end of itself.
pub proof fn lemma_whole_linked(full: Seq<EntryModel>)
    requires
        plain(full),
        full.len() <= u64::MAX,
    ensures
        linked(whole(full), full),
{
    reveal(linked);
}

/// A node of a cluster with a fixed membership: it is held under its own
/// id; its log is the end of its whole log, which starts at index 1 and
/// holds no entry of a later term than the node's; what it has compacted
/// it has applied, what it has applied it has committed, and what it has
/// committed is in its log; and the membership in force is that of the
/// cluster.
pub open spec fn node_plain(
    n: NodeModel,
    id: NodeId,
    config: MembershipModel,
    full: Seq<EntryModel>,
) -> bool {
    &&& n.id == id
    &&& linked(n.log, full)
    &&& plain(full)
    &&& terms_upto(full, n.term())
    &&& n.base_membership == config
    &&& n.membership == config
    &&& n.state.membership == config
    &&& n.log.base_index <= n.state.last_applied <= n.commit_index <= full.len()
    &&& n.state.last_applied >= 1 ==> n.state.last_applied_term == full[n.state.last_applied
        - 1].term
    &&& match n.snapshot {
        Some(image) => n.log.base_index >= 1 && image.last_applied == n.log.base_index
            && image.last_applied_term == n.log.base_term && image.membership == config,
        None => n.log.base_index == 0,
    }
}

impl ClusterModel {
    /// Every node is as `node_plain` says.
    pub open spec fn nodes_plain(self) -> bool {
        &&& self.config.wf()
        &&& forall|i: NodeId| #[trigger]
            self.nodes.contains_key(i) ==> self.full.contains_key(i) && node_plain(
                self.nodes[i],
                i,
                self.config,
                self.full[i],
            )
    }

    /// A voter gives its vote to one candidate in a term.
    pub open spec fn votes_unique(self) -> bool {
        forall|t: u64, v: NodeId, a: NodeId, b: NodeId|
            #[trigger] self.granted(t, v, a) && #[trigger] self.granted(t, v, b) ==> a == b
    }

    /// A voter remembers the vote that it gave in its current term, and has
    /// seen every term in which it gave a vote.
    pub open spec fn votes_remembered(self) -> bool {
        forall|t: u64, v: NodeId, a: NodeId| #[trigger]
            self.granted(t, v, a) ==> self.nodes.contains_key(v) && self.nodes[v].term() >= t && (
            self.nodes[v].term() == t ==> self.nodes[v].voted_for() == Some(a))
    }

    /// Every vote that a node counts for itself was given to it in its
    /// current term.
    pub open spec fn votes_backed(self) -> bool {
        forall|i: NodeId, v: NodeId|
            self.nodes.contains_key(i) && #[trigger] self.nodes[i].votes.contains(v)
                ==> self.granted(self.nodes[i].term(), v, i)
    }

    /// Every winner of an election counted a quorum of voters, each of
    /// which gave it its vote in the term of the election.
    pub open spec fn elections_backed(self) -> bool {
        forall|t: u64, l: NodeId| #[trigger]
            self.elected.contains((t, l)) ==> {
                &&& self.electors.contains_key((t, l))
                &&& self.config.is_quorum(self.electors[(t, l)])
                &&& forall|v: NodeId| #[trigger]
                    self.electors[(t, l)].contains(v) ==> self.granted(t, v, l)
            }
    }

    /// The winner of an election is past the term of the election, or in
    /// it and no candidate.
    pub open spec fn winners_done(self) -> bool {
        forall|t: u64, l: NodeId| #[trigger]
            self.elected.contains((t, l)) ==> self.nodes.contains_key(l) && (self.nodes[l].term()
                > t || (self.nodes[l].term() == t && self.nodes[l].role != Role::Candidate))
    }

    /// A node that leads has won the election of its term.
    pub open spec fn leaders_elected(self) -> bool {
        forall|i: NodeId|
            self.nodes.contains_key(i) && (#[trigger] self.nodes[i]).role == Role::Leader
                ==> self.elected.contains((self.nodes[i].term(), i))
    }

    /// What holds of elections in every cluster that can be reached.
    pub open spec fn election_inv(self) -> bool {
        &&& self.nodes_plain()
        &&& self.votes_unique()
        &&& self.votes_remembered()
        &&& self.votes_backed()
        &&& self.elections_backed()
        &&& self.winners_done()
        &&& self.leaders_elected()
    }
}

/// Two winners of the election of one term are one node.
pub proof fn lemma_one_winner(c: ClusterModel, t: u64, a: NodeId, b: NodeId)
    requires
        c.votes_unique(),
        c.elections_backed(),
        c.elected.contains((t, a)),
        c.elected.contains((t, b)),
    ensures
        a == b,
{
    lemma_majorities_meet(c.config.members, c.electors[(t, a)], c.electors[(t, b)]);
    let v = choose|v: NodeId|
        c.config.members.contains(v) && c.electors[(t, a)].contains(v) && c.electors[(
            t,
            b,
        )].contains(v);
    assert(c.granted(t, v, a));
    assert(c.granted(t, v, b));
}

/// What an event does to its node's part in elections.
pub proof fn lemma_node_effect(c: ClusterModel, step: Step)
    requires
        c.nodes_plain(),
        c.enabled(step),
    ensures
        ({
            let n = c.nodes[step.node()];
            let m = c.node_after(step);
            &&& m.id == n.id
            &&& m.term() >= n.term()
            &&& m.term() == n.term() && n.voted_for() is Some ==> m.voted_for() == n.voted_for()
            &&& m.role == Role::Leader && n.role == Role::Leader ==> m.term() == n.term()
            &&& m.role == Role::Leader && n.role != Role::Leader ==> c.config.is_quorum(m.votes)
                && ((step is VoteResult && n.role == Role::Candidate && m.term() == n.term()) || (
            step is Timeout && m.term() == n.term() + 1))
            &&& m.role == Role::Candidate ==> (n.role == Role::Candidate && m.term() == n.term())
                || (step is Timeout && m.term() == n.term() + 1)
            &&& forall|v: NodeId| #[trigger]
                m.votes.contains(v) ==> {
                    ||| n.votes.contains(v) && m.term() == n.term()
                    ||| step is Timeout && n.can_stand() && v == n.id && m.term() == n.term() + 1
                    ||| step matches Step::VoteResult { vote, .. } && v == vote.from
                        && vote.result.vote_granted && vote.result.term == m.term()
                }
            &&& step is Timeout && n.can_stand() ==> m.term() == n.term() + 1 && m.voted_for()
                == Some(n.id)
            &&& step matches Step::RequestVote { ask, .. } ==> {
                let r = c.vote_answer(step.node(), ask).1;
                r.vote_granted ==> r.term == ask.term && m.term() == ask.term && m.voted_for()
                    == Some(ask.candidate_id) && (n.term() == ask.term ==> n.voted_for() is None
                    || n.voted_for() == Some(ask.candidate_id))
            }
        }),
{
    let n = c.nodes[step.node()];
    assert(node_plain(n, step.node(), c.config, c.full[step.node()]));
    lemma_linked(n.log, c.full[step.node()]);
    match step {
        Step::Timeout { .. } => {},
        Step::RequestVote { .. } => {},
        Step::VoteResult { .. } => {},
        Step::Propose { .. } => {},
        Step::Replicate { .. } => {},
        Step::AppendEntries { .. } => {},
        Step::AppendResult { .. } => {},
        Step::Apply { .. } => {},
        Step::Restart { .. } => {},
        Step::Compact { .. } => {},
        Step::InstallSnapshot { .. } => {},
    }
}

/// Which votes there are after an event: those that there were, the vote
/// that the event's node gave when asked, and the vote that it gave itself
/// when it stood for election.
pub proof fn lemma_granted_after(c: ClusterModel, step: Step)
    requires
        c.enabled(step),
    ensures
        forall|t: u64, v: NodeId, a: NodeId| #[trigger]
            c.step(step).granted(t, v, a) ==> {
                ||| c.granted(t, v, a)
                ||| step is Timeout && c.nodes[step.node()].can_stand() && v == step.node() && a
                    == v && t == c.nodes[v].term() + 1
                ||| step matches Step::RequestVote { ask, .. } && v == step.node() && a
                    == ask.candidate_id && t == ask.term && c.vote_answer(v, ask).1.vote_granted
            },
        forall|t: u64, v: NodeId, a: NodeId| c.granted(t, v, a) ==> #[trigger] c.step(step).granted(
            t,
            v,
            a,
        ),
{
    let n = c.nodes[step.node()];
    match step {
        Step::RequestVote { ask, .. } => {
            let r = c.vote_answer(step.node(), ask).1;
            assert(r.vote_granted ==> r.term == ask.term);
        },
        _ => {},
    }
}

/// An event keeps what holds of elections.
pub proof fn lemma_election_step(c: ClusterModel, step: Step)
    requires
        c.election_inv(),
        c.enabled(step),
        c.step(step).nodes_plain(),
    ensures
        c.step(step).election_inv(),
{
    let d = c.step(step);
    let i = step.node();
    let n = c.nodes[i];
    let m = c.node_after(step);
    lemma_node_effect(c, step);
    lemma_granted_after(c, step);
    assert(node_plain(n, i, c.config, c.full[i]));
    lemma_linked(n.log, c.full[i]);
    assert forall|j: NodeId| d.nodes.contains_key(j) implies c.nodes.contains_key(j) && (j != i
        ==> d.nodes[j] == c.nodes[j]) by {}
    assert(d.nodes[i] == m);
    assert(d.votes_remembered()) by {
        assert forall|t: u64, v: NodeId, a: NodeId| #[trigger] d.granted(t, v, a) implies d.nodes.contains_key(
            v,
        ) && d.nodes[v].term() >= t && (d.nodes[v].term() == t ==> d.nodes[v].voted_for() == Some(
            a,
        )) by {
            if c.granted(t, v, a) {
                assert(c.nodes[v].term() >= t);
            }
        }
    }
    assert(d.votes_unique()) by {
        assert forall|t: u64, v: NodeId, a: NodeId, b: NodeId|
            #[trigger] d.granted(t, v, a) && #[trigger] d.granted(t, v, b) implies a == b by {
            if c.granted(t, v, a) {
                assert(c.nodes[v].term() >= t);
            }
            if c.granted(t, v, b) {
                assert(c.nodes[v].term() >= t);
            }
        }
    }
    assert(d.votes_backed()) by {
        assert forall|j: NodeId, v: NodeId|
            d.nodes.contains_key(j) && #[trigger] d.nodes[j].votes.contains(v) implies d.granted(
            d.nodes[j].term(),
            v,
            j,
        ) by {
            if j == i {
                if n.votes.contains(v) && m.term() == n.term() {
                    assert(c.granted(n.term(), v, i));
                } else if step is Timeout {
                } else {
                    match step {
                        Step::VoteResult { vote, .. } => {
                            assert(c.vote_results.contains(vote));
                            assert(vote =~= VoteMsg {
                                from: v,
                                to: i,
                                result: VoteResult { term: m.term(), vote_granted: true },
                            });
                        },
                        _ => {},
                    }
                }
            } else {
                assert(c.nodes[j].votes.contains(v));
                assert(c.granted(c.nodes[j].term(), v, j));
            }
        }
    }
    assert(d.elections_backed()) by {
        assert forall|t: u64, l: NodeId| #[trigger] d.elected.contains((t, l)) implies {
            &&& d.electors.contains_key((t, l))
            &&& d.config.is_quorum(d.electors[(t, l)])
            &&& forall|v: NodeId| #[trigger]
                d.electors[(t, l)].contains(v) ==> d.granted(t, v, l)
        } by {
            if c.elected.contains((t, l)) {
                if m.role == Role::Leader && n.role != Role::Leader && (t, l) == (m.term(), m.id) {
                    // The node won before: it would be past the term, or no candidate in it.
                    assert(c.nodes[l].term() > t || (c.nodes[l].term() == t && c.nodes[l].role
                        != Role::Candidate));
                    assert(false);
                }
                assert(d.electors[(t, l)] == c.electors[(t, l)]);
                assert forall|v: NodeId| #[trigger] d.electors[(t, l)].contains(v) implies d.granted(
                    t,
                    v,
                    l,
                ) by {
                    assert(c.granted(t, v, l));
                }
            } else {
                assert(m.role == Role::Leader && (t, l) == (m.term(), m.id));
                if n.role == Role::Leader {
                    assert(c.elected.contains((n.term(), i)));
                    assert(false);
                }
                assert(d.electors[(t, l)] == m.votes);
                assert forall|v: NodeId| #[trigger] d.electors[(t, l)].contains(v) implies d.granted(
                    t,
                    v,
                    l,
                ) by {
                    assert(d.nodes[i].votes.contains(v));
                }
            }
        }
    }
    assert(d.winners_done()) by {
        assert forall|t: u64, l: NodeId| #[trigger] d.elected.contains((t, l)) implies d.nodes.contains_key(
            l,
        ) && (d.nodes[l].term() > t || (d.nodes[l].term() == t && d.nodes[l].role
            != Role::Candidate)) by {
            if c.elected.contains((t, l)) {
                assert(c.nodes[l].term() > t || (c.nodes[l].term() == t && c.nodes[l].role
                    != Role::Candidate));
            }
        }
    }
    assert(d.leaders_elected()) by {
        assert forall|j: NodeId|
            d.nodes.contains_key(j) && (#[trigger] d.nodes[j]).role
                == Role::Leader implies d.elected.contains((d.nodes[j].term(), j)) by {
            if j != i {
                assert(c.nodes[j].role == Role::Leader);
                assert(c.elected.contains((c.nodes[j].term(), j)));
            }
        }
    }
}

/// Two sequences of entries are the same in their first `n` places.
pub open spec fn agree(a: Seq<EntryModel>, b: Seq<EntryModel>, n: int) -> bool {
    &&& n <= a.len()
    &&& n <= b.len()
    &&& forall|j: int| 0 <= j < n ==> a[j] == b[j]
}

/// Whether a request to append entries is a window of a log: its entries
/// are the log's entries after `prev_log_index`, and `prev_log_term` is the
/// term of the log's entry at `prev_log_index`.
pub open spec fn window(m: AppendMsg, log: Seq<EntryModel>) -> bool {
    &&& m.prev_log_index + m.entries.len() <= log.len()
    &&& forall|k: int|
        0 <= k < m.entries.len() ==> #[trigger] m.entries[k] == log[m.prev_log_index + k]
    &&& if m.prev_log_index >= 1 {
        log[m.prev_log_index - 1].term == m.prev_log_term
    } else {
        m.prev_log_term == 0
    }
}

/// Whether a request to install an image carries an image of the start of
/// a log: the entries that it includes are the first entries of the log,
/// and its image is one at the last of them, with the membership of the
/// cluster.
pub open spec fn image_of(s: SnapshotMsg, log: Seq<EntryModel>, config: MembershipModel) -> bool {
    &&& 1 <= s.prefix.len() <= log.len()
    &&& agree(s.prefix, log, s.prefix.len() as int)
    &&& s.image.last_applied == s.prefix.len()
    &&& s.image.last_applied_term == s.prefix[s.prefix.len() - 1].term
    &&& s.image.membership == config
}

impl ClusterModel {
    /// Up to each of its entries, the log is the log of the term of that
    /// entry.
    pub open spec fn anchored(self, log: Seq<EntryModel>) -> bool {
        forall|i: int|
            0 <= i < log.len() ==> self.term_log.contains_key((#[trigger] log[i]).term) && agree(
                log,
                self.term_log[log[i].term],
                i + 1,
            )
    }

    /// The log of a term is numbered from 1 on and holds no entry of a
    /// later term.
    pub open spec fn term_logs_plain(self) -> bool {
        forall|t: u64| #[trigger]
            self.term_log.contains_key(t) ==> plain(self.term_log[t]) && terms_upto(
                self.term_log[t],
                t,
            ) && self.term_log[t].len() <= u64::MAX
    }

    /// A term has a log only if its election was won.
    pub open spec fn term_logs_won(self) -> bool {
        forall|t: u64| #[trigger]
            self.term_log.contains_key(t) ==> self.winner.contains_key(t) && self.elected.contains(
                (t, self.winner[t]),
            )
    }

    /// The log of each term is anchored in the logs of the terms of its
    /// entries.
    pub open spec fn term_logs_anchored(self) -> bool {
        forall|t: u64| #[trigger] self.term_log.contains_key(t) ==> self.anchored(self.term_log[t])
    }

    /// The log of each node is anchored in the logs of the terms of its
    /// entries.
    pub open spec fn node_logs_anchored(self) -> bool {
        forall|i: NodeId| #[trigger]
            self.nodes.contains_key(i) ==> self.anchored(self.full[i])
    }

    /// The log of a leader is the log of its term.
    pub open spec fn leaders_own(self) -> bool {
        forall|i: NodeId|
            self.nodes.contains_key(i) && (#[trigger] self.nodes[i]).role == Role::Leader
                ==> self.term_log.contains_key(self.nodes[i].term())
                && self.term_log[self.nodes[i].term()] == self.full[i]
    }

    /// Every request to append entries is a window of the log of its term.
    pub open spec fn appends_windows(self) -> bool {
        forall|m: AppendMsg| #[trigger]
            self.appends.contains(m) ==> self.term_log.contains_key(m.term) && window(
                m,
                self.term_log[m.term],
            )
    }

    /// Every request to install an image carries an image at the end of
    /// the entries that it includes, and these are the start of the log of
    /// its term.
    pub open spec fn snapshots_windows(self) -> bool {
        forall|s: SnapshotMsg| #[trigger]
            self.snapshots.contains(s) ==> self.term_log.contains_key(s.term) && image_of(
                s,
                self.term_log[s.term],
                self.config,
            )
    }

    /// What holds of logs in every cluster that can be reached.
    pub open spec fn log_inv(self) -> bool {
        &&& self.term_logs_plain()
        &&& self.term_logs_won()
        &&& self.term_logs_anchored()
        &&& self.node_logs_anchored()
        &&& self.leaders_own()
        &&& self.appends_windows()
        &&& self.snapshots_windows()
    }

    /// What holds in every cluster that can be reached.
    pub open spec fn inv(self) -> bool {
        &&& self.election_inv()
        &&& self.log_inv()
    }
}

/// A log and its whole log first disagree with a request's entries at the
/// same place.
pub proof fn lemma_conflict_linked(
    log: LogModel,
    full: Seq<EntryModel>,
    entries: Seq<EntryModel>,
    prev: u64,
    from: int,
)
    requires
        linked(log, full),
        plain(full),
        follows(entries, prev),
        prev >= log.base_index,
        prev + entries.len() <= u64::MAX,
        0 <= from <= entries.len(),
    ensures
        first_conflict(log, entries, from) == first_conflict(whole(full), entries, from),
    decreases entries.len() - from,
{
    if from < entries.len() {
        let index = entries[from].index as int;
        assert(index == prev + 1 + from);
        lemma_linked(log, full);
        assert(log.term_at(index) == whole(full).term_at(index));
        lemma_conflict_linked(log, full, entries, prev, from + 1);
    }
}

/// Merging a request into a log is merging it into the whole log: the
/// merged log is the end of the merged whole log.
pub proof fn lemma_merge_linked(
    n: NodeModel,
    full: Seq<EntryModel>,
    prev: u64,
    prev_term: u64,
    entries: Seq<EntryModel>,
)
    requires
        linked(n.log, full),
        plain(full),
        full.len() <= u64::MAX,
        follows(entries, prev),
        prev + entries.len() <= u64::MAX,
        n.log.term_at(prev as int) == Some(prev_term),
    ensures
        ({
            let v = NodeModel { log: whole(full), ..n };
            &&& v.log.wf()
            &&& prev >= n.log.base_index
            &&& v.log.term_at(prev as int) == Some(prev_term)
            &&& first_conflict(v.log, entries, 0) == first_conflict(n.log, entries, 0)
            &&& n.merged_log(prev, entries).base_index == n.log.base_index
            &&& linked(n.merged_log(prev, entries), v.merged_log(prev, entries).entries)
        }),
{
    let v = NodeModel { log: whole(full), ..n };
    let base = n.log.base_index as int;
    lemma_linked(n.log, full);
    reveal(linked);
    lemma_conflict_linked(n.log, full, entries, prev, 0);
    lemma_first_conflict(n.log, entries, 0);
    let k = first_conflict(n.log, entries, 0);
    let mr = n.merged_log(prev, entries);
    let mv = v.merged_log(prev, entries);
    lemma_merged_log(n, prev, prev_term, entries);
    lemma_merged_log(v, prev, prev_term, entries);
    if k < entries.len() {
        let cut_r = n.log.truncate_after(prev + k);
        let cut_v = v.log.truncate_after(prev + k);
        assert(prev + k <= n.log.last_index());
        assert(cut_r.entries.len() == prev + k - base);
        assert(cut_v.entries.len() == prev + k);
        assert forall|j: int| 0 <= j < mr.entries.len() implies #[trigger] mr.entries[j]
            == mv.entries[base + j] by {
            if j < cut_r.entries.len() {
                assert(mr.entries[j] == n.log.entries[j]);
                assert(mv.entries[base + j] == full[base + j]);
            } else {
                assert(mr.entries[j] == entries.skip(k)[j - cut_r.entries.len()]);
                assert(mv.entries[base + j] == entries.skip(k)[base + j - cut_v.entries.len()]);
            }
        }
        if base >= 1 {
            assert(mv.entries[base - 1] == full[base - 1]);
        }
    }
}

/// What an event does to the whole log of its node: nothing; or, at a
/// leader, one entry of the leader's term more; or, at a follower that
/// accepts a request to append entries, the merge of the request into the
/// whole log; or, at a node that takes an image and empties its log, the
/// entries that the image includes. The log that the node holds is the end
/// of its whole log after the event as before, and only compaction and an
/// image move its base.
pub open spec fn log_effect(c: ClusterModel, step: Step) -> bool {
    let n = c.nodes[step.node()];
    let m = c.node_after(step);
    let before = c.full[step.node()];
    let after = c.full_after(step);
    let len = before.len() as int;
    &&& linked(m.log, after)
    &&& m.base_membership == c.config
    &&& m.membership == n.membership || m.membership == latest_config(m.log.entries, c.config)
    &&& (m.log.base_index == n.log.base_index && m.snapshot == n.snapshot) || step is Compact
        || step is InstallSnapshot
    &&& m.commit_index <= after.len()
    &&& m.commit_index >= n.commit_index || (step is Restart && m.commit_index
        == n.log.base_index)
    &&& agree(after, before, n.commit_index as int) || (step matches Step::InstallSnapshot {
        node,
        request,
    } && c.installs(node, request) && !c.keeps_log(node, request))
    &&& {
        ||| after == before
        ||| {
            &&& m.role == Role::Leader
            &&& len < u64::MAX
            &&& after.len() == len + 1
            &&& agree(after, before, len)
            &&& after[len].term == m.term()
            &&& after[len].index == len + 1
            &&& !(after[len].payload is ConfigChange)
        }
        ||| step matches Step::AppendEntries { request, .. } && {
            &&& m.role == Role::Follower
            &&& m.term() == request.term
            &&& follows(request.entries, request.prev_log_index)
            &&& request.prev_log_index + request.entries.len() <= u64::MAX
            &&& whole(before).term_at(request.prev_log_index as int) == Some(
                request.prev_log_term,
            )
            &&& whole(after) == c.whole_node(step.node()).merged_log(
                request.prev_log_index,
                request.entries,
            )
            &&& first_conflict(n.log, request.entries, 0) == first_conflict(
                whole(before),
                request.entries,
                0,
            )
        }
        ||| step matches Step::InstallSnapshot { node, request } && {
            &&& c.installs(node, request)
            &&& !c.keeps_log(node, request)
            &&& after == request.prefix
            &&& m.role == Role::Follower
            &&& m.term() == request.term
        }
    }
}

/// `log_effect` holds of a node that stands for election or counts a vote.
proof fn lemma_log_effect_election(c: ClusterModel, step: Step)
    requires
        c.nodes_plain(),
        c.enabled(step),
        step is Timeout || step is VoteResult,
    ensures
        log_effect(c, step),
{
    let i = step.node();
    let n = c.nodes[i];
    let m = c.node_after(step);
    let before = c.full[i];
    let after = c.full_after(step);
    assert(node_plain(n, i, c.config, before));
    lemma_linked(n.log, before);
    reveal(linked);
    match step {
        Step::Timeout { .. } => {
            if n.can_stand() && n.log.last_index() < u64::MAX {
                lemma_advance_commit(
                    n.standing().counted(n.id).as_leader().appended(PayloadModel::NoOp),
                );
            }
        },
        Step::VoteResult { vote, .. } => {
            if n.log.last_index() < u64::MAX {
                lemma_advance_commit(n.counted(vote.from).as_leader().appended(PayloadModel::NoOp));
            }
        },
        _ => {},
    }
    if m.log != n.log {
        assert(after =~= before.push(m.log.entries[m.log.entries.len() - 1]));
    }
}

/// `log_effect` holds of a node that takes a proposal or an answer to a
/// request to append entries.
proof fn lemma_log_effect_leader(c: ClusterModel, step: Step)
    requires
        c.nodes_plain(),
        c.enabled(step),
        step is Propose || step is AppendResult,
    ensures
        log_effect(c, step),
{
    let i = step.node();
    let n = c.nodes[i];
    let m = c.node_after(step);
    let before = c.full[i];
    let after = c.full_after(step);
    assert(node_plain(n, i, c.config, before));
    lemma_linked(n.log, before);
    reveal(linked);
    match step {
        Step::Propose { payload, .. } => {
            if n.log.last_index() < u64::MAX {
                lemma_advance_commit(n.appended(payload));
            }
            if m.log != n.log {
                assert(after =~= before.push(m.log.entries[m.log.entries.len() - 1]));
            }
        },
        Step::AppendResult { answer, .. } => {
            match answer.result.outcome {
                AppendOutcome::Appended { match_index } => {
                    lemma_advance_commit(n.matched(answer.from, match_index));
                },
                _ => {},
            }
        },
        _ => {},
    }
}

/// `log_effect` holds of a node that is asked for a vote, sends to a peer,
/// applies what it has committed or starts again.
proof fn lemma_log_effect_quiet(c: ClusterModel, step: Step)
    requires
        c.nodes_plain(),
        c.enabled(step),
        step is RequestVote || step is Replicate || step is Apply || step is Restart,
    ensures
        log_effect(c, step),
{
    let i = step.node();
    let n = c.nodes[i];
    let before = c.full[i];
    assert(node_plain(n, i, c.config, before));
    lemma_linked(n.log, before);
    reveal(linked);
    assert(forall|k: int|
        0 <= k < n.log.entries.len() ==> !(#[trigger] n.log.entries[k].payload is ConfigChange));
    lemma_latest_config_plain(n.log.entries, c.config);
}

/// `log_effect` holds of a node that compacts its log.
proof fn lemma_log_effect_compact(c: ClusterModel, step: Step)
    requires
        c.nodes_plain(),
        c.enabled(step),
        step is Compact,
    ensures
        log_effect(c, step),
{
    let i = step.node();
    let n = c.nodes[i];
    let m = c.node_after(step);
    let before = c.full[i];
    let after = c.full_after(step);
    assert(node_plain(n, i, c.config, before));
    lemma_linked(n.log, before);
    if n.log.base_index < n.state.last_applied < u64::MAX {
        let cut = n.state.last_applied as int;
        assert(n.log.has(cut));
        lemma_purge_linked(n.log, before, cut + 1);
        lemma_linked(m.log, before);
        assert(after == before);
        assert forall|k: int| 0 <= k < m.log.entries.len() implies !(
        #[trigger] m.log.entries[k].payload is ConfigChange) by {
            assert(m.log.has(m.log.base_index + 1 + k));
        }
        lemma_latest_config_plain(m.log.entries, c.config);
    } else {
        assert(m == n);
        assert(after == before);
    }
}

/// An event that neither appends, nor merges, nor installs an image leaves
/// the whole log of its node what it was.
pub proof fn lemma_whole_log_stays(c: ClusterModel, step: Step)
    requires
        c.nodes_plain(),
        c.enabled(step),
        step is RequestVote || step is Replicate || step is Apply || step is Restart
            || step is Compact,
    ensures
        c.full_after(step) == c.full[step.node()],
{
    let i = step.node();
    let n = c.nodes[i];
    let m = c.node_after(step);
    let before = c.full[i];
    assert(node_plain(n, i, c.config, before));
    lemma_linked(n.log, before);
    if step is Compact && n.log.base_index < n.state.last_applied < u64::MAX {
        let cut = n.state.last_applied as int;
        assert(n.log.has(cut));
        lemma_purge_linked(n.log, before, cut + 1);
        lemma_linked(m.log, before);
    } else {
        assert(m.log == n.log);
    }
    assert(c.full_after(step) =~= before);
}

/// `log_effect` holds of a node that a request to append entries reaches.
proof fn lemma_log_effect_append(c: ClusterModel, step: Step)
    requires
        c.nodes_plain(),
        c.enabled(step),
        step is AppendEntries,
    ensures
        log_effect(c, step),
{
    let i = step.node();
    let n = c.nodes[i];
    let m = c.node_after(step);
    let before = c.full[i];
    let after = c.full_after(step);
    let base = n.log.base_index as int;
    assert(node_plain(n, i, c.config, before));
    lemma_linked(n.log, before);
    lemma_whole_linked(before);
    match step {
        Step::AppendEntries { request, .. } => {
            if c.append_answer(i, request).outcome is Appended {
                let v = c.whole_node(i);
                lemma_accept_effect(c, i, request);
                lemma_merge_linked(
                    n,
                    before,
                    request.prev_log_index,
                    request.prev_log_term,
                    request.entries,
                );
                lemma_merged_log(
                    v,
                    request.prev_log_index,
                    request.prev_log_term,
                    request.entries,
                );
                let merged = v.merged_log(request.prev_log_index, request.entries);
                let k = first_conflict(v.log, request.entries, 0);
                assert(merged.entries == after);
                lemma_merged_log(
                    n,
                    request.prev_log_index,
                    request.prev_log_term,
                    request.entries,
                );
                assert forall|j: int| 0 <= j < n.commit_index implies after[j] == before[j] by {
                    assert(merged.at(j + 1) == v.log.at(j + 1));
                }
                assert(linked(m.log, after));
            } else {
                reveal(linked);
                assert(after =~= before);
            }
        },
        _ => {},
    }
}

/// `log_effect` holds of a node that a request to install an image
/// reaches.
proof fn lemma_log_effect_install(c: ClusterModel, step: Step)
    requires
        c.nodes_plain(),
        c.snapshots_windows(),
        c.enabled(step),
        step is InstallSnapshot,
    ensures
        log_effect(c, step),
{
    let i = step.node();
    let n = c.nodes[i];
    let m = c.node_after(step);
    let before = c.full[i];
    let after = c.full_after(step);
    assert(node_plain(n, i, c.config, before));
    lemma_linked(n.log, before);
    match step {
        Step::InstallSnapshot { node, request } => {
            assert(c.snapshots.contains(request));
            assert(image_of(request, c.term_log[request.term], c.config));
            let last = request.image.last_applied as int;
            if c.installs(node, request) {
                if c.keeps_log(node, request) {
                    assert(n.log.has(last));
                    lemma_purge_linked(n.log, before, last + 1);
                    assert(m.log == n.log.purge_before(last + 1));
                    lemma_linked(m.log, before);
                    assert forall|k: int| 0 <= k < m.log.entries.len() implies !(
                    #[trigger] m.log.entries[k].payload is ConfigChange) by {
                        assert(m.log.has(m.log.base_index + 1 + k));
                    }
                    lemma_latest_config_plain(m.log.entries, c.config);
                } else {
                    assert(m.log.entries =~= Seq::<EntryModel>::empty());
                    assert(m.log.base_index == last);
                    reveal(linked);
                }
            } else {
                assert(m.log == n.log);
            }
        },
        _ => {},
    }
}

/// What an event does to the whole log of its node is as `log_effect` says.
pub proof fn lemma_log_effect(c: ClusterModel, step: Step)
    requires
        c.nodes_plain(),
        step is InstallSnapshot ==> c.snapshots_windows(),
        c.enabled(step),
    ensures
        log_effect(c, step),
{
    match step {
        Step::Timeout { .. } => lemma_log_effect_election(c, step),
        Step::RequestVote { .. } => lemma_log_effect_quiet(c, step),
        Step::VoteResult { .. } => lemma_log_effect_election(c, step),
        Step::Propose { .. } => lemma_log_effect_leader(c, step),
        Step::Replicate { .. } => lemma_log_effect_quiet(c, step),
        Step::AppendEntries { .. } => lemma_log_effect_append(c, step),
        Step::AppendResult { .. } => lemma_log_effect_leader(c, step),
        Step::Apply { .. } => lemma_log_effect_quiet(c, step),
        Step::Restart { .. } => lemma_log_effect_quiet(c, step),
        Step::Compact { .. } => lemma_log_effect_compact(c, step),
        Step::InstallSnapshot { .. } => lemma_log_effect_install(c, step),
    }
}

/// What accepting a request to append entries does: the node follows the
/// leader of the request's term, its whole log becomes the merge of the
/// request into its whole log, what was committed stays, and the commit
/// index moves up within the request's entries as far as the leader has
/// committed.
pub proof fn lemma_accept_effect(c: ClusterModel, node: NodeId, request: AppendMsg)
    requires
        c.nodes_plain(),
        c.enabled(Step::AppendEntries { node, request }),
        c.append_answer(node, request).outcome is Appended,
    ensures
        ({
            let step = Step::AppendEntries { node, request };
            let n = c.nodes[node];
            let m = c.node_after(step);
            let v = c.whole_node(node);
            let r = c.append_answer(node, request);
            let before = c.full[node];
            let after = c.full_after(step);
            let last_new = request.prev_log_index + request.entries.len();
            let k = first_conflict(v.log, request.entries, 0);
            &&& r.term == request.term
            &&& r.outcome == (AppendOutcome::Appended { match_index: last_new as u64 })
            &&& m.role == Role::Follower
            &&& m.term() == request.term
            &&& n.term() <= request.term
            &&& follows(request.entries, request.prev_log_index)
            &&& last_new <= u64::MAX
            &&& v.log.wf()
            &&& v.log.term_at(request.prev_log_index as int) == Some(request.prev_log_term)
            &&& whole(after) == v.merged_log(request.prev_log_index, request.entries)
            &&& k < request.entries.len() ==> request.prev_log_index + k >= n.commit_index
            &&& m.commit_index == n.commit_index || (m.commit_index > n.commit_index
                && m.commit_index <= last_new && m.commit_index <= request.leader_commit)
        }),
{
    let step = Step::AppendEntries { node, request };
    let n = c.nodes[node];
    let m = c.node_after(step);
    let v = c.whole_node(node);
    let before = c.full[node];
    let after = c.full_after(step);
    let base = n.log.base_index as int;
    assert(node_plain(n, node, c.config, before));
    lemma_linked(n.log, before);
    lemma_whole_linked(before);
    lemma_merge_linked(n, before, request.prev_log_index, request.prev_log_term, request.entries);
    lemma_merged_log(n, request.prev_log_index, request.prev_log_term, request.entries);
    lemma_merged_log(v, request.prev_log_index, request.prev_log_term, request.entries);
    let merged = v.merged_log(request.prev_log_index, request.entries);
    assert(m.log == n.merged_log(request.prev_log_index, request.entries));
    reveal(linked);
    assert(after =~= merged.entries) by {
        assert forall|j: int| 0 <= j < after.len() implies after[j] == merged.entries[j] by {
            if j >= base {
                assert(m.log.entries[j - base] == merged.entries[base + (j - base)]);
            } else {
                assert(merged.at(j + 1) == v.log.at(j + 1));
            }
        }
    }
    assert(whole(after) =~= merged);
}

/// A request to append entries that is not accepted leaves the whole log
/// and the commit index as they are.
pub proof fn lemma_refuse_effect(c: ClusterModel, node: NodeId, request: AppendMsg)
    requires
        c.nodes_plain(),
        c.enabled(Step::AppendEntries { node, request }),
        !(c.append_answer(node, request).outcome is Appended),
    ensures
        c.full_after(Step::AppendEntries { node, request }) == c.full[node],
        c.node_after(Step::AppendEntries { node, request }).commit_index
            == c.nodes[node].commit_index,
        c.node_after(Step::AppendEntries { node, request }).term() >= c.nodes[node].term(),
{
    let step = Step::AppendEntries { node, request };
    let n = c.nodes[node];
    let m = c.node_after(step);
    assert(node_plain(n, node, c.config, c.full[node]));
    lemma_linked(n.log, c.full[node]);
    assert(m.log == n.log);
}

/// What an event does to the state machine of its node: nothing; or the
/// node applies what it has committed; or it starts again from its image,
/// or from the state that every node starts with if it has none.
pub proof fn lemma_state_effect(c: ClusterModel, step: Step)
    requires
        c.nodes_plain(),
        c.enabled(step),
    ensures
        ({
            let n = c.nodes[step.node()];
            let m = c.node_after(step);
            ||| m.state == n.state
            ||| step is Apply && m.log == n.log && m.commit_index == n.commit_index && m.state
                == apply_upto(n.state, n.log, n.commit_index as int).0
            ||| step is Restart && m.log == n.log && m.commit_index == n.log.base_index && m.state
                == (match n.snapshot {
                Some(image) => image,
                None => StateModel::initial(c.config),
            })
            ||| step matches Step::InstallSnapshot { node, request } && c.installs(node, request)
                && m.state == request.image && m.snapshot == Some(request.image)
                && m.commit_index == request.image.last_applied && m.log.base_index
                == request.image.last_applied && m.log.base_term
                == request.image.last_applied_term
        }),
{
    let n = c.nodes[step.node()];
    assert(node_plain(n, step.node(), c.config, c.full[step.node()]));
    lemma_linked(n.log, c.full[step.node()]);
    match step {
        Step::Timeout { .. } => {
            if n.can_stand() && n.log.last_index() < u64::MAX {
                lemma_advance_commit(
                    n.standing().counted(n.id).as_leader().appended(PayloadModel::NoOp),
                );
            }
        },
        Step::RequestVote { .. } => {},
        Step::VoteResult { vote, .. } => {
            if n.log.last_index() < u64::MAX {
                lemma_advance_commit(n.counted(vote.from).as_leader().appended(PayloadModel::NoOp));
            }
        },
        Step::Propose { payload, .. } => {
            if n.log.last_index() < u64::MAX {
                lemma_advance_commit(n.appended(payload));
            }
        },
        Step::Replicate { .. } => {},
        Step::AppendEntries { .. } => {},
        Step::AppendResult { answer, .. } => {
            match answer.result.outcome {
                AppendOutcome::Appended { match_index } => {
                    lemma_advance_commit(n.matched(answer.from, match_index));
                },
                _ => {},
            }
        },
        Step::Apply { .. } => {},
        Step::Restart { .. } => {},
        Step::Compact { .. } => {},
        Step::InstallSnapshot { .. } => {},
    }
}

/// The log of a follower after it accepted a request that is a window of
/// an anchored, plain log `lead`: the merged log is the follower's old log
/// up to some place `q` and `lead` from there to its end, and it agrees
/// with `lead` over its whole length if the old log was anchored too.
pub proof fn lemma_merge_anchored(
    c: ClusterModel,
    n: NodeModel,
    request: AppendMsg,
    lead: Seq<EntryModel>,
)
    requires
        n.log.wf(),
        n.log.base_index == 0,
        n.log.base_term == 0,
        plain(n.log.entries),
        plain(lead),
        lead.len() <= u64::MAX,
        window(request, lead),
        follows(request.entries, request.prev_log_index),
        request.prev_log_index + request.entries.len() <= u64::MAX,
        n.log.term_at(request.prev_log_index as int) == Some(request.prev_log_term),
        c.anchored(n.log.entries),
        c.anchored(lead),
    ensures
        ({
            let merged = n.merged_log(request.prev_log_index, request.entries);
            let k = first_conflict(n.log, request.entries, 0);
            let q = request.prev_log_index + k;
            &&& merged.wf()
            &&& merged.base_index == 0
            &&& merged.base_term == 0
            &&& 0 <= k <= request.entries.len()
            &&& q <= n.log.entries.len()
            &&& k < request.entries.len() ==> merged.entries.len() == request.prev_log_index
                + request.entries.len()
            &&& k == request.entries.len() ==> merged == n.log
            &&& agree(merged.entries, n.log.entries, q)
            &&& agree(n.log.entries, lead, q)
            &&& k < request.entries.len() ==> agree(merged.entries, lead, merged.entries.len() as int)
        }),
{
    let prev = request.prev_log_index;
    let entries = request.entries;
    let merged = n.merged_log(prev, entries);
    let k = first_conflict(n.log, entries, 0);
    let q = prev + k;
    let old = n.log.entries;
    lemma_merged_log(n, prev, request.prev_log_term, entries);
    lemma_first_conflict(n.log, entries, 0);
    assert(agree(merged.entries, old, q)) by {
        assert forall|j: int| 0 <= j < q implies merged.entries[j] == old[j] by {
            assert(merged.at(j + 1) == n.log.at(j + 1));
        }
    }
    // The old log and the leader's have the same term just before `q`, so
    // both are the log of that term up to there.
    if q > 0 {
        if k > 0 {
            assert(n.log.term_at(entries[k - 1].index as int) == Some(entries[k - 1].term));
            assert(entries[k - 1] == lead[prev + k - 1]);
            assert(entries[k - 1].index == prev + k);
        }
        assert(old[q - 1].term == lead[q - 1].term);
        let t = old[q - 1].term;
        assert(agree(old, c.term_log[t], q));
        assert(agree(lead, c.term_log[lead[q - 1].term], q));
    }
    assert(agree(old, lead, q));
    if k < entries.len() {
        assert forall|j: int| 0 <= j < merged.entries.len() implies merged.entries[j]
            == lead[j] by {
            if j >= q {
                assert(merged.at(prev + 1 + (j - prev)) == entries[j - prev]);
            }
        }
    }
}

/// A plain log with one more entry of a term that is not behind its terms
/// is plain.
pub proof fn lemma_plain_push(before: Seq<EntryModel>, after: Seq<EntryModel>, term: u64)
    requires
        plain(before),
        after.len() == before.len() + 1,
        agree(after, before, before.len() as int),
        after[before.len() as int].index == before.len() + 1,
        after[before.len() as int].term == term,
        !(after[before.len() as int].payload is ConfigChange),
        forall|k: int| 0 <= k < before.len() ==> (#[trigger] before[k]).term <= term,
    ensures
        plain(after),
        terms_upto(after, term),
{
    assert forall|k: int| 0 <= k < after.len() implies (#[trigger] after[k]).index == k + 1 && !(
    after[k].payload is ConfigChange) && after[k].term <= term by {
        if k < before.len() {
            assert(after[k] == before[k]);
        }
    }
}

/// The start of a plain log is plain.
pub proof fn lemma_plain_prefix(log: Seq<EntryModel>, prefix: Seq<EntryModel>, term: u64)
    requires
        plain(log),
        terms_upto(log, term),
        agree(prefix, log, prefix.len() as int),
    ensures
        plain(prefix),
        terms_upto(prefix, term),
{
    assert forall|k: int| 0 <= k < prefix.len() implies (#[trigger] prefix[k]).index == k + 1 && !(
    prefix[k].payload is ConfigChange) && prefix[k].term <= term by {
        assert(prefix[k] == log[k]);
    }
}

/// The whole log of a follower that accepted a request is plain.
proof fn lemma_full_plain_append(c: ClusterModel, node: NodeId, request: AppendMsg)
    requires
        c.inv(),
        c.enabled(Step::AppendEntries { node, request }),
    ensures
        plain(c.full_after(Step::AppendEntries { node, request })),
        terms_upto(
            c.full_after(Step::AppendEntries { node, request }),
            c.node_after(Step::AppendEntries { node, request }).term(),
        ),
{
    let step = Step::AppendEntries { node, request };
    let n = c.nodes[node];
    let fb = c.full[node];
    let fa = c.full_after(step);
    let v = c.whole_node(node);
    assert(node_plain(n, node, c.config, fb));
    if c.append_answer(node, request).outcome is Appended {
        let lead = c.term_log[request.term];
        assert(window(request, lead));
        lemma_accept_effect(c, node, request);
        lemma_merge_anchored(c, v, request, lead);
        let k = first_conflict(v.log, request.entries, 0);
        if k < request.entries.len() {
            assert(agree(fa, lead, fa.len() as int));
            lemma_plain_prefix(lead, fa, request.term);
        } else {
            assert(whole(fa) == v.log);
            assert(fa == fb);
        }
    } else {
        lemma_refuse_effect(c, node, request);
    }
}

/// An event keeps the whole log of its node numbered from 1 on, without
/// entries that carry a membership or are of a later term than the node's.
pub proof fn lemma_full_plain_step(c: ClusterModel, step: Step)
    requires
        c.inv(),
        c.enabled(step),
    ensures
        plain(c.full_after(step)),
        terms_upto(c.full_after(step), c.node_after(step).term()),
{
    let i = step.node();
    let n = c.nodes[i];
    let m = c.node_after(step);
    let fb = c.full[i];
    let fa = c.full_after(step);
    match step {
        Step::AppendEntries { node, request } => {
            lemma_full_plain_append(c, node, request);
        },
        Step::InstallSnapshot { node, request } => {
            lemma_node_effect(c, step);
            lemma_log_effect(c, step);
            assert(node_plain(n, i, c.config, fb));
            assert(c.snapshots.contains(request));
            if fa != fb {
                assert(fa == request.prefix);
                lemma_plain_prefix(c.term_log[request.term], fa, request.term);
            }
        },
        _ => {
            lemma_node_effect(c, step);
            lemma_log_effect(c, step);
            assert(node_plain(n, i, c.config, fb));
            if fa != fb {
                lemma_plain_push(fb, fa, m.term());
            }
        },
    }
}

/// The state machine of an event's node after the event lies between what
/// the node has compacted and what it has committed, has the membership
/// of the cluster and the term of the last entry that it applied; and the
/// image of the node, if it has one, is an image at the base of its log.
pub open spec fn state_bounds(c: ClusterModel, step: Step) -> bool {
    let m = c.node_after(step);
    let fa = c.full_after(step);
    &&& m.state.membership == c.config
    &&& m.log.base_index <= m.state.last_applied <= m.commit_index
    &&& m.state.last_applied >= 1 ==> m.state.last_applied_term == fa[m.state.last_applied
        - 1].term
    &&& match m.snapshot {
        Some(image) => m.log.base_index >= 1 && image.last_applied == m.log.base_index
            && image.last_applied_term == m.log.base_term && image.membership == c.config,
        None => m.log.base_index == 0,
    }
}

/// `state_bounds` holds of a node that compacts its log.
proof fn lemma_state_bounds_compact(c: ClusterModel, step: Step)
    requires
        c.nodes_plain(),
        c.enabled(step),
        step is Compact,
    ensures
        state_bounds(c, step),
{
    let i = step.node();
    let n = c.nodes[i];
    let m = c.node_after(step);
    let fb = c.full[i];
    assert(node_plain(n, i, c.config, fb));
    lemma_linked(n.log, fb);
    lemma_log_effect(c, step);
    let applied = n.state.last_applied as int;
    if n.log.base_index < n.state.last_applied < u64::MAX {
        assert(n.log.has(applied));
        lemma_purge_linked(n.log, fb, applied + 1);
        assert(m.snapshot == Some(n.state));
        assert(m.state == n.state);
        assert(m.commit_index == n.commit_index);
    } else {
        assert(m == n);
    }
}

/// `state_bounds` holds of a node that starts again.
proof fn lemma_state_bounds_restart(c: ClusterModel, step: Step)
    requires
        c.nodes_plain(),
        c.enabled(step),
        step is Restart,
    ensures
        state_bounds(c, step),
{
    let i = step.node();
    let n = c.nodes[i];
    let m = c.node_after(step);
    let fb = c.full[i];
    assert(node_plain(n, i, c.config, fb));
    lemma_linked(n.log, fb);
    lemma_log_effect(c, step);
    assert(m.log == n.log);
    assert(m.snapshot == n.snapshot);
    match n.snapshot {
        Some(image) => {
            assert(m.state == image);
        },
        None => {
            assert(m.state == StateModel::initial(c.config));
        },
    }
}

/// `state_bounds` holds of a node that applies what it has committed.
proof fn lemma_state_bounds_apply(c: ClusterModel, step: Step)
    requires
        c.nodes_plain(),
        c.enabled(step),
        step is Apply,
    ensures
        state_bounds(c, step),
{
    let i = step.node();
    let n = c.nodes[i];
    let m = c.node_after(step);
    let fb = c.full[i];
    assert(node_plain(n, i, c.config, fb));
    lemma_linked(n.log, fb);
    lemma_log_effect(c, step);
    let applied = n.state.last_applied as int;
    assert(m.log == n.log);
    assert(m.commit_index == n.commit_index);
    assert(m.snapshot == n.snapshot);
    assert(m.state == apply_upto(n.state, n.log, n.commit_index as int).0);
    assert forall|j: int| applied < j <= n.commit_index implies !(#[trigger] n.log.at(j).payload
        is ConfigChange) by {
        assert(n.log.has(j));
        assert(n.log.at(j) == fb[j - 1]);
    }
    lemma_apply_in_order(n.state, n.log, n.commit_index as int);
    lemma_apply_plain(n.state, n.log, n.commit_index as int);
    if n.commit_index > applied {
        assert(n.log.has(n.commit_index as int));
    }
}

/// `state_bounds` holds of a node whose state machine the event leaves
/// alone.
proof fn lemma_state_bounds_other(c: ClusterModel, step: Step)
    requires
        c.nodes_plain(),
        c.enabled(step),
        !(step is Compact || step is Restart || step is Apply || step is InstallSnapshot),
    ensures
        state_bounds(c, step),
{
    let i = step.node();
    let n = c.nodes[i];
    let m = c.node_after(step);
    let fb = c.full[i];
    let fa = c.full_after(step);
    assert(node_plain(n, i, c.config, fb));
    lemma_log_effect(c, step);
    lemma_state_effect(c, step);
    let applied = n.state.last_applied as int;
    assert(m.state == n.state);
    if applied >= 1 {
        assert(fa[applied - 1] == fb[applied - 1]);
    }
}

/// `state_bounds` holds of a node that a request to install an image
/// reaches.
proof fn lemma_state_bounds_install(c: ClusterModel, step: Step)
    requires
        c.nodes_plain(),
        c.snapshots_windows(),
        c.enabled(step),
        step is InstallSnapshot,
    ensures
        state_bounds(c, step),
{
    let i = step.node();
    let n = c.nodes[i];
    let m = c.node_after(step);
    let fb = c.full[i];
    let fa = c.full_after(step);
    assert(node_plain(n, i, c.config, fb));
    lemma_linked(n.log, fb);
    lemma_log_effect(c, step);
    lemma_state_effect(c, step);
    match step {
        Step::InstallSnapshot { node, request } => {
            assert(c.snapshots.contains(request));
            assert(image_of(request, c.term_log[request.term], c.config));
            let last = request.image.last_applied as int;
            if c.installs(node, request) {
                if c.keeps_log(node, request) {
                    assert(n.log.has(last));
                    assert(fa == fb);
                } else {
                    assert(fa == request.prefix);
                }
            } else {
                assert(m.state == n.state);
                assert(m.commit_index == n.commit_index);
                assert(m.log == n.log);
                assert(m.snapshot == n.snapshot);
            }
        },
        _ => {},
    }
}

/// An event keeps the state machine of its node as `state_bounds` says.
pub proof fn lemma_state_bounds_step(c: ClusterModel, step: Step)
    requires
        c.inv(),
        c.enabled(step),
    ensures
        state_bounds(c, step),
{
    match step {
        Step::Compact { .. } => lemma_state_bounds_compact(c, step),
        Step::Restart { .. } => lemma_state_bounds_restart(c, step),
        Step::Apply { .. } => lemma_state_bounds_apply(c, step),
        Step::InstallSnapshot { .. } => lemma_state_bounds_install(c, step),
        _ => lemma_state_bounds_other(c, step),
    }
}

/// An event keeps the nodes as `node_plain` says.
pub proof fn lemma_nodes_plain_step(c: ClusterModel, step: Step)
    requires
        c.inv(),
        c.enabled(step),
    ensures
        c.step(step).nodes_plain(),
{
    let d = c.step(step);
    let i = step.node();
    let n = c.nodes[i];
    let m = c.node_after(step);
    let fa = c.full_after(step);
    lemma_node_effect(c, step);
    lemma_log_effect(c, step);
    lemma_full_plain_step(c, step);
    lemma_state_bounds_step(c, step);
    assert(d.full[i] == fa);
    assert(m.membership == c.config) by {
        lemma_linked(m.log, fa);
        assert forall|k: int| 0 <= k < m.log.entries.len() implies !(
        #[trigger] m.log.entries[k].payload is ConfigChange) by {
            assert(m.log.has(m.log.base_index + 1 + k));
            assert(m.log.at(m.log.base_index + 1 + k) == fa[m.log.base_index + k]);
        }
        lemma_latest_config_plain(m.log.entries, c.config);
    }
    assert(node_plain(n, i, c.config, c.full[i]));
    assert(node_plain(m, i, c.config, fa));
    assert forall|j: NodeId| #[trigger] d.nodes.contains_key(j) implies d.full.contains_key(j)
        && node_plain(d.nodes[j], j, d.config, d.full[j]) by {
        if j != i {
            assert(c.nodes.contains_key(j));
            assert(node_plain(c.nodes[j], j, c.config, c.full[j]));
        }
    }
}

/// Whether the logs of the terms in `d` continue those in `c`: every term
/// that has a log in `c` has one in `d`, which starts with the log in `c`.
pub open spec fn continues(c: ClusterModel, d: ClusterModel) -> bool {
    forall|t: u64| #[trigger]
        c.term_log.contains_key(t) ==> d.term_log.contains_key(t) && agree(
            c.term_log[t],
            d.term_log[t],
            c.term_log[t].len() as int,
        )
}

/// A log that is anchored stays so when the logs of the terms grow.
pub proof fn lemma_anchored_continues(c: ClusterModel, d: ClusterModel, log: Seq<EntryModel>)
    requires
        continues(c, d),
        c.anchored(log),
    ensures
        d.anchored(log),
{
    assert forall|i: int| 0 <= i < log.len() implies d.term_log.contains_key(
        (#[trigger] log[i]).term,
    ) && agree(log, d.term_log[log[i].term], i + 1) by {
        let t = log[i].term;
        assert(c.term_log.contains_key(t));
        assert(agree(log, c.term_log[t], i + 1));
    }
}

/// An event lets the logs of the terms grow and changes none of them
/// otherwise.
pub proof fn lemma_step_continues(c: ClusterModel, step: Step)
    requires
        c.inv(),
        c.enabled(step),
        c.step(step).election_inv(),
    ensures
        continues(c, c.step(step)),
        c.node_after(step).role == Role::Leader && c.nodes[step.node()].role != Role::Leader
            ==> !c.term_log.contains_key(c.node_after(step).term()),
{
    let d = c.step(step);
    let i = step.node();
    let n = c.nodes[i];
    let m = c.node_after(step);
    let term = m.term();
    lemma_node_effect(c, step);
    lemma_log_effect(c, step);
    assert(node_plain(n, i, c.config, c.full[i]));
    lemma_linked(n.log, c.full[i]);
    if m.role == Role::Leader {
        if n.role == Role::Leader {
            assert(c.term_log[term] == c.full[i]);
        } else if c.term_log.contains_key(term) {
            let w = c.winner[term];
            assert(c.elected.contains((term, w)));
            assert(d.elected.contains((term, w)));
            assert(d.elected.contains((term, i)));
            lemma_one_winner(d, term, i, w);
            assert(c.nodes[i].term() > term || (c.nodes[i].term() == term && c.nodes[i].role
                != Role::Candidate));
            assert(false);
        }
    }
    assert forall|t: u64| #[trigger] c.term_log.contains_key(t) implies d.term_log.contains_key(t)
        && agree(c.term_log[t], d.term_log[t], c.term_log[t].len() as int) by {
        if m.role == Role::Leader && t == term {
            assert(d.term_log[t] == d.full[i]);
        } else {
            assert(d.term_log[t] == c.term_log[t]);
        }
    }
}

/// The start of an anchored log is anchored.
pub proof fn lemma_anchored_prefix(c: ClusterModel, log: Seq<EntryModel>, prefix: Seq<EntryModel>)
    requires
        c.anchored(log),
        agree(prefix, log, prefix.len() as int),
    ensures
        c.anchored(prefix),
{
    assert forall|i: int| 0 <= i < prefix.len() implies c.term_log.contains_key(
        (#[trigger] prefix[i]).term,
    ) && agree(prefix, c.term_log[prefix[i].term], i + 1) by {
        assert(prefix[i] == log[i]);
        assert(agree(log, c.term_log[log[i].term], i + 1));
    }
}

/// The whole log of a follower that accepted a request is anchored.
proof fn lemma_node_anchored_append(c: ClusterModel, node: NodeId, request: AppendMsg)
    requires
        c.inv(),
        c.enabled(Step::AppendEntries { node, request }),
    ensures
        c.anchored(c.full_after(Step::AppendEntries { node, request })),
{
    let step = Step::AppendEntries { node, request };
    let n = c.nodes[node];
    let fb = c.full[node];
    let fa = c.full_after(step);
    let v = c.whole_node(node);
    assert(node_plain(n, node, c.config, fb));
    assert(c.anchored(fb));
    if c.append_answer(node, request).outcome is Appended {
        let lead = c.term_log[request.term];
        assert(window(request, lead));
        lemma_accept_effect(c, node, request);
        lemma_merge_anchored(c, v, request, lead);
        let k = first_conflict(v.log, request.entries, 0);
        if k < request.entries.len() {
            assert(agree(fa, lead, fa.len() as int));
            lemma_anchored_prefix(c, lead, fa);
        } else {
            assert(whole(fa) == v.log);
            assert(fa == fb);
        }
    } else {
        lemma_refuse_effect(c, node, request);
    }
}

/// The whole log of a leader that added an entry to it is anchored, the log
/// of the leader's term being that whole log.
proof fn lemma_node_anchored_push(
    c: ClusterModel,
    d: ClusterModel,
    before: Seq<EntryModel>,
    after: Seq<EntryModel>,
    term: u64,
)
    requires
        continues(c, d),
        c.anchored(before),
        after.len() == before.len() + 1,
        agree(after, before, before.len() as int),
        after[before.len() as int].term == term,
        d.term_log.contains_key(term),
        d.term_log[term] == after,
    ensures
        d.anchored(after),
{
    let len = before.len() as int;
    assert forall|k: int| 0 <= k < after.len() implies d.term_log.contains_key(
        (#[trigger] after[k]).term,
    ) && agree(after, d.term_log[after[k].term], k + 1) by {
        if k < len {
            let t = before[k].term;
            assert(after[k] == before[k]);
            assert(c.term_log.contains_key(t));
            assert(agree(before, c.term_log[t], k + 1));
            assert(agree(c.term_log[t], d.term_log[t], c.term_log[t].len() as int));
        }
    }
}

/// The whole log of an event's node is anchored after the event.
pub proof fn lemma_node_anchored_step(c: ClusterModel, step: Step)
    requires
        c.inv(),
        c.enabled(step),
        c.step(step).election_inv(),
    ensures
        c.step(step).anchored(c.full_after(step)),
{
    let d = c.step(step);
    let i = step.node();
    let n = c.nodes[i];
    let m = c.node_after(step);
    let fb = c.full[i];
    let fa = c.full_after(step);
    lemma_step_continues(c, step);
    assert(node_plain(n, i, c.config, fb));
    assert(c.anchored(fb));
    match step {
        Step::AppendEntries { node, request } => {
            lemma_node_anchored_append(c, node, request);
            lemma_anchored_continues(c, d, fa);
        },
        Step::InstallSnapshot { node, request } => {
            lemma_log_effect(c, step);
            assert(c.snapshots.contains(request));
            if fa != fb {
                assert(fa == request.prefix);
                lemma_anchored_prefix(c, c.term_log[request.term], fa);
            }
            lemma_anchored_continues(c, d, fa);
        },
        _ => {
            lemma_node_effect(c, step);
            lemma_log_effect(c, step);
            if fa == fb {
                lemma_anchored_continues(c, d, fb);
            } else {
                assert(m.role == Role::Leader);
                assert(d.term_log[m.term()] == fa);
                lemma_node_anchored_push(c, d, fb, fa, m.term());
            }
        },
    }
}

/// What a leader sends to a peer to append is a window of its whole log.
pub proof fn lemma_replicate_window(n: NodeModel, full: Seq<EntryModel>, peer: NodeId)
    requires
        linked(n.log, full),
    ensures
        n.replicate(peer) matches Some(
            crate::metasrv::node_model::ReplicationModel::Append {
                term,
                leader_id,
                prev_log_index,
                prev_log_term,
                entries,
                leader_commit,
            },
        ) ==> window(
            AppendMsg { term, leader_id, prev_log_index, prev_log_term, entries, leader_commit },
            full,
        ) && term == n.term() && leader_commit == n.commit_index && n.role == Role::Leader,
{
    lemma_linked(n.log, full);
    reveal(linked);
    match n.replicate(peer) {
        Some(
            crate::metasrv::node_model::ReplicationModel::Append {
                term,
                leader_id,
                prev_log_index,
                prev_log_term,
                entries,
                leader_commit,
            },
        ) => {
            let base = n.log.base_index as int;
            assert(prev_log_index >= base);
            assert(n.log.term_at(prev_log_index as int) == Some(prev_log_term));
            assert(n.log.count_upto(prev_log_index as int) == prev_log_index - base);
            assert forall|k: int| 0 <= k < entries.len() implies #[trigger] entries[k]
                == full[prev_log_index + k] by {
                assert(entries[k] == n.log.entries[prev_log_index - base + k]);
            }
        },
        _ => {},
    }
}

/// An event keeps every request to append entries a window of the log of
/// its term.
pub proof fn lemma_windows_step(c: ClusterModel, step: Step)
    requires
        c.inv(),
        c.enabled(step),
        c.step(step).election_inv(),
    ensures
        c.step(step).appends_windows(),
{
    let d = c.step(step);
    let i = step.node();
    let n = c.nodes[i];
    lemma_node_effect(c, step);
    lemma_log_effect(c, step);
    lemma_step_continues(c, step);
    assert(node_plain(n, i, c.config, c.full[i]));
    assert forall|a: AppendMsg| #[trigger] d.appends.contains(a) implies d.term_log.contains_key(
        a.term,
    ) && window(a, d.term_log[a.term]) by {
        if c.appends.contains(a) {
            assert(c.term_log.contains_key(a.term));
            assert(window(a, c.term_log[a.term]));
            assert(agree(c.term_log[a.term], d.term_log[a.term], c.term_log[a.term].len() as int));
        } else {
            match step {
                Step::Replicate { node, peer } => {
                    lemma_replicate_window(n, c.full[i], peer);
                    assert(n.role == Role::Leader);
                    assert(c.term_log[n.term()] == c.full[i]);
                    assert(d.term_log[n.term()] == c.full[i]);
                },
                _ => {},
            }
        }
    }
}

/// An event keeps what holds of logs.
pub proof fn lemma_log_step(c: ClusterModel, step: Step)
    requires
        c.inv(),
        c.enabled(step),
        c.step(step).nodes_plain(),
        c.step(step).election_inv(),
    ensures
        c.step(step).log_inv(),
{
    let d = c.step(step);
    let i = step.node();
    let m = c.node_after(step);
    let term = m.term();
    let leads = m.role == Role::Leader;
    lemma_step_continues(c, step);
    lemma_node_anchored_step(c, step);
    lemma_windows_step(c, step);
    assert(d.nodes.contains_key(i));
    assert(d.nodes[i] == m);
    assert(d.full[i] == c.full_after(step));
    assert(node_plain(d.nodes[i], i, d.config, d.full[i]));
    lemma_linked(m.log, d.full[i]);
    assert forall|j: NodeId| d.nodes.contains_key(j) implies c.nodes.contains_key(j) && (j != i
        ==> d.nodes[j] == c.nodes[j] && d.full[j] == c.full[j]) by {}
    assert forall|t: u64| #[trigger] d.term_log.contains_key(t) implies (if leads && t == term {
        d.term_log[t] == d.full[i]
    } else {
        c.term_log.contains_key(t) && d.term_log[t] == c.term_log[t]
    }) by {}
    assert(d.term_logs_plain()) by {
        assert forall|t: u64| #[trigger] d.term_log.contains_key(t) implies plain(d.term_log[t])
            && terms_upto(d.term_log[t], t) && d.term_log[t].len() <= u64::MAX by {
            if !(leads && t == term) {
                assert(c.term_log.contains_key(t));
            }
        }
    }
    assert(d.term_logs_won()) by {
        assert forall|t: u64| #[trigger] d.term_log.contains_key(t) implies d.winner.contains_key(
            t,
        ) && d.elected.contains((t, d.winner[t])) by {
            if !(leads && t == term) {
                assert(c.term_log.contains_key(t));
                assert(c.elected.contains((t, c.winner[t])));
            }
        }
    }
    assert(d.term_logs_anchored()) by {
        assert forall|t: u64| #[trigger] d.term_log.contains_key(t) implies d.anchored(
            d.term_log[t],
        ) by {
            if !(leads && t == term) {
                assert(c.term_log.contains_key(t));
                lemma_anchored_continues(c, d, c.term_log[t]);
            }
        }
    }
    assert(d.node_logs_anchored()) by {
        assert forall|j: NodeId| #[trigger] d.nodes.contains_key(j) implies d.anchored(
            d.full[j],
        ) by {
            if j != i {
                lemma_anchored_continues(c, d, c.full[j]);
            }
        }
    }
    assert(d.leaders_own()) by {
        assert forall|j: NodeId|
            d.nodes.contains_key(j) && (#[trigger] d.nodes[j]).role
                == Role::Leader implies d.term_log.contains_key(d.nodes[j].term())
            && d.term_log[d.nodes[j].term()] == d.full[j] by {
            if j != i {
                assert(c.nodes[j].role == Role::Leader);
                let tj = c.nodes[j].term();
                assert(c.term_log.contains_key(tj));
                if leads && tj == term {
                    assert(d.elected.contains((term, i)));
                    assert(d.elected.contains((term, j)));
                    lemma_one_winner(d, term, i, j);
                }
            }
        }
    }
}

/// A cluster that has just started is as `inv` says.
pub proof fn lemma_inv_init(c: ClusterModel)
    requires
        c.init(),
    ensures
        c.inv(),
{
    assert forall|i: NodeId| #[trigger] c.nodes.contains_key(i) implies c.full.contains_key(i)
        && node_plain(c.nodes[i], i, c.config, c.full[i]) && c.anchored(c.full[i]) by {
        assert(c.nodes[i] == NodeModel::initial(i, c.config));
        assert(c.full[i] == Seq::<EntryModel>::empty());
        reveal(linked);
    }
}

/// An event that can happen keeps a cluster as `inv` says.
pub proof fn lemma_inv_step(c: ClusterModel, step: Step)
    requires
        c.inv(),
        c.enabled(step),
    ensures
        c.step(step).inv(),
{
    lemma_nodes_plain_step(c, step);
    lemma_election_step(c, step);
    lemma_log_step(c, step);
}

/// Every cluster that is reached from a start by events that can happen
/// is as `inv` says.
pub proof fn lemma_inv_run(c: ClusterModel, steps: Seq<Step>)
    requires
        c.init(),
        can_run(c, steps),
    ensures
        run(c, steps).inv(),
    decreases steps.len(),
{
    if steps.len() == 0 {
        lemma_inv_init(c);
    } else {
        lemma_inv_run(c, steps.drop_last());
        lemma_inv_step(run(c, steps.drop_last()), steps.last());
    }
}

/// Election safety: in a cluster with a fixed membership, however events
/// follow each other, at most one node wins the election of a term.
pub proof fn lemma_election_safety(
    c: ClusterModel,
    steps: Seq<Step>,
    term: u64,
    a: NodeId,
    b: NodeId,
)
    requires
        c.init(),
        can_run(c, steps),
        run(c, steps).elected.contains((term, a)),
        run(c, steps).elected.contains((term, b)),
    ensures
        a == b,
{
    lemma_inv_run(c, steps);
    lemma_one_winner(run(c, steps), term, a, b);
}

/// Election safety, of the nodes as they are: in a cluster with a fixed
/// membership, however events follow each other, two nodes that lead in
/// the same term are one node, and every node that leads has won the
/// election of its term.
pub proof fn lemma_one_leader_per_term(c: ClusterModel, steps: Seq<Step>, a: NodeId, b: NodeId)
    requires
        c.init(),
        can_run(c, steps),
        run(c, steps).nodes.contains_key(a),
        run(c, steps).nodes.contains_key(b),
        run(c, steps).nodes[a].role == Role::Leader,
        run(c, steps).nodes[b].role == Role::Leader,
        run(c, steps).nodes[a].term() == run(c, steps).nodes[b].term(),
    ensures
        a == b,
        run(c, steps).elected.contains((run(c, steps).nodes[a].term(), a)),
{
    let d = run(c, steps);
    lemma_inv_run(c, steps);
    lemma_one_winner(d, d.nodes[a].term(), a, b);
}

/// Log matching: in a cluster with a fixed membership, however events
/// follow each other, if the logs of two nodes hold an entry of the same
/// term at an index, they hold the same entry at every index up to that one
/// at which both hold one. What a node has compacted away it does not hold.
pub proof fn lemma_log_matching(
    c: ClusterModel,
    steps: Seq<Step>,
    a: NodeId,
    b: NodeId,
    index: int,
    earlier: int,
)
    requires
        c.init(),
        can_run(c, steps),
        run(c, steps).nodes.contains_key(a),
        run(c, steps).nodes.contains_key(b),
        run(c, steps).nodes[a].log.has(index),
        run(c, steps).nodes[b].log.has(index),
        run(c, steps).nodes[a].log.at(index).term == run(c, steps).nodes[b].log.at(index).term,
        earlier <= index,
        run(c, steps).nodes[a].log.has(earlier),
        run(c, steps).nodes[b].log.has(earlier),
    ensures
        run(c, steps).nodes[a].log.at(earlier) == run(c, steps).nodes[b].log.at(earlier),
{
    let d = run(c, steps);
    lemma_inv_run(c, steps);
    let la = d.nodes[a].log;
    let lb = d.nodes[b].log;
    let fa = d.full[a];
    let fb = d.full[b];
    assert(node_plain(d.nodes[a], a, d.config, fa));
    assert(node_plain(d.nodes[b], b, d.config, fb));
    lemma_linked(la, fa);
    lemma_linked(lb, fb);
    assert(d.anchored(fa));
    assert(d.anchored(fb));
    assert(la.at(index) == fa[index - 1]);
    assert(lb.at(index) == fb[index - 1]);
    assert(la.at(earlier) == fa[earlier - 1]);
    assert(lb.at(earlier) == fb[earlier - 1]);
    let t = fa[index - 1].term;
    assert(agree(fa, d.term_log[t], index));
    assert(fb[index - 1].term == t);
    assert(agree(fb, d.term_log[t], index));
    assert(fa[earlier - 1] == d.term_log[t][earlier - 1]);
    assert(fb[earlier - 1] == d.term_log[t][earlier - 1]);
}

} // verus!
