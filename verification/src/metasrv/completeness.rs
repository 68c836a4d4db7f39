//! Why a leader of a later term holds every entry that was committed in an
//! earlier one, and why no two nodes apply different entries at one index.
//! Both rest on records that the cluster model keeps for the proof: the log
//! that each candidate stood with and the log that each voter held when it
//! gave its vote.

use crate::metasrv::cluster::{
    can_run, run, whole, AppendAnswer, AppendMsg, ClusterModel, SnapshotMsg, Step,
};
use crate::metasrv::log_store::LogModel;
use crate::metasrv::membership::{lemma_majorities_meet, lemma_quorum_grows, NodeId};
use crate::metasrv::messages::{AppendOutcome, AppendResult, VoteRequest, VoteResult};
use crate::metasrv::node_model::{
    apply_upto, first_conflict, lemma_advance_commit, lemma_apply_in_order, lemma_apply_in_steps,
    lemma_apply_same_entries, lemma_first_conflict, up_to_date, NodeModel, Role,
};
use crate::metasrv::safety::{
    agree, continues, image_of, lemma_accept_effect, lemma_anchored_continues,
    lemma_anchored_prefix, lemma_granted_after, lemma_inv_init, lemma_inv_step, lemma_linked,
    lemma_log_effect, lemma_merge_anchored, lemma_node_effect, lemma_nodes_plain_step,
    lemma_one_winner, lemma_refuse_effect, lemma_replicate_window, lemma_state_effect,
    lemma_step_continues, lemma_whole_linked, lemma_whole_log_stays, linked, node_plain, plain,
    terms_upto, window,
};
use crate::metasrv::state_machine::StateModel;
use crate::metasrv::types::{EntryModel, PayloadModel};
use vstd::prelude::*;

verus! {

/// The terms of the entries do not go down along the log.
pub open spec fn sorted(log: Seq<EntryModel>) -> bool {
    forall|i: int, j: int| 0 <= i <= j < log.len() ==> log[i].term <= log[j].term
}

/// The term of the last entry, or 0 for a log without entries.
pub open spec fn last_term(log: Seq<EntryModel>) -> u64 {
    if log.len() == 0 {
        0
    } else {
        log.last().term
    }
}

/// Whether the log `a` is at least as up to date as the log `b`: its last
/// term is later, or the same and it is at least as long.
pub open spec fn at_least_as_new(a: Seq<EntryModel>, b: Seq<EntryModel>) -> bool {
    last_term(a) > last_term(b) || (last_term(a) == last_term(b) && a.len() >= b.len())
}

/// A log as the records of the cluster keep it: numbered from 1 on, with
/// terms that do not go down and stay under `term`, and anchored in the
/// logs of those terms.
pub open spec fn recorded(c: ClusterModel, log: Seq<EntryModel>, term: u64) -> bool {
    &&& term >= 1
    &&& log.len() <= u64::MAX
    &&& plain(log)
    &&& sorted(log)
    &&& terms_upto(log, (term - 1) as u64)
    &&& c.anchored(log)
}

impl ClusterModel {
    /// The logs of the nodes and of the terms are sorted by term.
    pub open spec fn logs_sorted(self) -> bool {
        &&& forall|i: NodeId| #[trigger]
            self.nodes.contains_key(i) ==> sorted(self.full[i])
        &&& forall|t: u64| #[trigger] self.term_log.contains_key(t) ==> sorted(self.term_log[t])
    }

    /// The log that a node stood for election with is on record, and the
    /// node has reached the term it stood in.
    pub open spec fn candidacies_recorded(self) -> bool {
        forall|t: u64, a: NodeId| #[trigger]
            self.candidacy_log.contains_key((t, a)) ==> self.nodes.contains_key(a)
                && self.nodes[a].term() >= t && recorded(self, self.candidacy_log[(t, a)], t)
    }

    /// Every request for a vote tells the truth about the log that its
    /// candidate stood with.
    pub open spec fn requests_genuine(self) -> bool {
        forall|ask: VoteRequest| #[trigger]
            self.vote_requests.contains(ask) ==> {
                &&& self.candidacy_log.contains_key((ask.term, ask.candidate_id))
                &&& ask.last_log_index == self.candidacy_log[(ask.term, ask.candidate_id)].len()
                &&& ask.last_log_term == last_term(
                    self.candidacy_log[(ask.term, ask.candidate_id)],
                )
            }
    }

    /// A candidate still holds the log that it stood with.
    pub open spec fn candidates_unchanged(self) -> bool {
        forall|i: NodeId|
            self.nodes.contains_key(i) && (#[trigger] self.nodes[i]).role == Role::Candidate
                ==> self.candidacy_log.contains_key((self.nodes[i].term(), i))
                && self.candidacy_log[(self.nodes[i].term(), i)] == self.full[i]
    }

    /// The log of a term starts with the log that its winner stood with.
    pub open spec fn term_logs_from_candidacy(self) -> bool {
        forall|t: u64| #[trigger]
            self.term_log.contains_key(t) ==> self.candidacy_log.contains_key((t, self.winner[t]))
                && agree(
                self.candidacy_log[(t, self.winner[t])],
                self.term_log[t],
                self.candidacy_log[(t, self.winner[t])].len() as int,
            )
    }

    /// The log that a voter held when it gave its vote is on record as a
    /// log of earlier terms, and the voter has reached the term of the vote.
    pub open spec fn votes_recorded(self) -> bool {
        forall|t: u64, v: NodeId| #[trigger]
            self.vote_log.contains_key((t, v)) ==> self.nodes.contains_key(v) && self.nodes[v].term()
                >= t && recorded(self, self.vote_log[(t, v)], t)
    }

    /// Until the election of a term is won, every vote that is given in
    /// the term is on record.
    pub open spec fn early_votes_recorded(self) -> bool {
        forall|t: u64, v: NodeId, a: NodeId| #[trigger]
            self.granted(t, v, a) && !self.term_log.contains_key(t) ==> self.vote_log.contains_key(
                (t, v),
            )
    }

    /// The log that a candidate stood with was at least as up to date as
    /// the log of each voter on record that voted for it.
    pub open spec fn votes_for_newer(self) -> bool {
        forall|t: u64, v: NodeId, a: NodeId| #[trigger]
            self.granted(t, v, a) && self.vote_log.contains_key((t, v))
                ==> self.candidacy_log.contains_key((t, a)) && at_least_as_new(
                self.candidacy_log[(t, a)],
                self.vote_log[(t, v)],
            )
    }

    /// The votes that a winner counted are on record.
    pub open spec fn electors_recorded(self) -> bool {
        forall|t: u64, l: NodeId, v: NodeId|
            self.elected.contains((t, l)) && #[trigger] self.electors[(t, l)].contains(v)
                ==> self.vote_log.contains_key((t, v))
    }

    /// A voter on record that is still in the term of its vote remembers
    /// whom it voted for.
    pub open spec fn voters_remember(self) -> bool {
        forall|t: u64, v: NodeId| #[trigger]
            self.vote_log.contains_key((t, v)) && self.nodes[v].term() == t ==> (
            self.nodes[v].voted_for() matches Some(a) && self.granted(t, v, a))
    }

    /// What holds of the records in every cluster that can be reached.
    pub open spec fn record_inv(self) -> bool {
        &&& self.logs_sorted()
        &&& self.voters_remember()
        &&& self.candidacies_recorded()
        &&& self.requests_genuine()
        &&& self.candidates_unchanged()
        &&& self.term_logs_from_candidacy()
        &&& self.votes_recorded()
        &&& self.early_votes_recorded()
        &&& self.votes_for_newer()
        &&& self.electors_recorded()
    }
}

/// A log that is on record stays so when the logs of the terms grow.
pub proof fn lemma_recorded_continues(
    c: ClusterModel,
    d: ClusterModel,
    log: Seq<EntryModel>,
    term: u64,
)
    requires
        continues(c, d),
        recorded(c, log, term),
    ensures
        recorded(d, log, term),
{
    lemma_anchored_continues(c, d, log);
}

/// The start of a sorted log is sorted.
pub proof fn lemma_sorted_prefix(log: Seq<EntryModel>, prefix: Seq<EntryModel>)
    requires
        sorted(log),
        agree(prefix, log, prefix.len() as int),
    ensures
        sorted(prefix),
{
    assert forall|i: int, j: int| 0 <= i <= j < prefix.len() implies prefix[i].term
        <= prefix[j].term by {
        assert(prefix[i] == log[i]);
        assert(prefix[j] == log[j]);
    }
}

/// A sorted log with one more entry of a term that is not behind its terms
/// is sorted.
pub proof fn lemma_sorted_push(before: Seq<EntryModel>, after: Seq<EntryModel>, term: u64)
    requires
        sorted(before),
        terms_upto(before, term),
        after.len() == before.len() + 1,
        agree(after, before, before.len() as int),
        after[before.len() as int].term >= term,
    ensures
        sorted(after),
{
    let len = before.len() as int;
    assert forall|i: int, j: int| 0 <= i <= j < after.len() implies after[i].term
        <= after[j].term by {
        if j < len {
            assert(after[i] == before[i]);
            assert(after[j] == before[j]);
        } else if i < len {
            assert(after[i] == before[i]);
            assert(before[i].term <= term);
        }
    }
}

/// The whole log of an event's node is sorted by term after the event.
pub proof fn lemma_sorted_node_step(c: ClusterModel, step: Step)
    requires
        c.inv(),
        c.logs_sorted(),
        c.enabled(step),
    ensures
        sorted(c.full_after(step)),
{
    let i = step.node();
    let n = c.nodes[i];
    let m = c.node_after(step);
    let fb = c.full[i];
    let fa = c.full_after(step);
    assert(node_plain(n, i, c.config, fb));
    assert(sorted(fb));
    match step {
        Step::AppendEntries { node, request } => {
            if c.append_answer(node, request).outcome is Appended {
                let lead = c.term_log[request.term];
                let v = c.whole_node(node);
                assert(window(request, lead));
                lemma_accept_effect(c, node, request);
                lemma_merge_anchored(c, v, request, lead);
                let k = first_conflict(v.log, request.entries, 0);
                if k < request.entries.len() {
                    lemma_sorted_prefix(lead, fa);
                } else {
                    assert(whole(fa) == v.log);
                    assert(fa == fb);
                }
            } else {
                lemma_refuse_effect(c, node, request);
            }
        },
        Step::InstallSnapshot { node, request } => {
            lemma_log_effect(c, step);
            assert(c.snapshots.contains(request));
            if fa != fb {
                assert(fa == request.prefix);
                lemma_sorted_prefix(c.term_log[request.term], fa);
            }
        },
        _ => {
            lemma_node_effect(c, step);
            lemma_log_effect(c, step);
            if fa != fb {
                lemma_sorted_push(fb, fa, n.term());
            }
        },
    }
}

/// An event keeps the logs sorted by term.
pub proof fn lemma_sorted_step(c: ClusterModel, step: Step)
    requires
        c.inv(),
        c.logs_sorted(),
        c.enabled(step),
    ensures
        c.step(step).logs_sorted(),
{
    let d = c.step(step);
    let i = step.node();
    let m = c.node_after(step);
    lemma_sorted_node_step(c, step);
    assert(d.full[i] == c.full_after(step));
    assert forall|j: NodeId| #[trigger] d.nodes.contains_key(j) implies sorted(d.full[j]) by {
        if j != i {
            assert(c.nodes.contains_key(j));
            assert(d.full[j] == c.full[j]);
        }
    }
    assert forall|t: u64| #[trigger] d.term_log.contains_key(t) implies sorted(d.term_log[t]) by {
        if !(m.role == Role::Leader && t == m.term()) {
            assert(c.term_log.contains_key(t));
        }
    }
}

/// What an event does to the log of a node that stands for election, wins
/// one or gives a vote.
pub proof fn lemma_vote_effect(c: ClusterModel, step: Step)
    requires
        c.nodes_plain(),
        c.enabled(step),
    ensures
        ({
            let n = c.nodes[step.node()];
            let m = c.node_after(step);
            &&& m.role == Role::Candidate ==> c.full_after(step) == c.full[step.node()]
            &&& step is Timeout && n.can_stand() ==> m.role != Role::Follower
            &&& step matches Step::RequestVote { ask, .. } ==> c.full_after(step) == c.full[step.node()] && (
            c.vote_answer(step.node(), ask).1.vote_granted ==> n.term() <= ask.term && up_to_date(
                n.log,
                ask.last_log_index,
                ask.last_log_term,
            ))
        }),
{
    let n = c.nodes[step.node()];
    assert(node_plain(n, step.node(), c.config, c.full[step.node()]));
    lemma_linked(n.log, c.full[step.node()]);
    lemma_whole_linked(c.full[step.node()]);
    match step {
        Step::Timeout { .. } => {},
        Step::RequestVote { .. } => {},
        Step::VoteResult { .. } => {},
        Step::Propose { .. } => {},
        Step::Replicate { .. } => {},
        Step::AppendEntries { .. } => {},
        Step::AppendResult { .. } => {},
        Step::Apply { .. } => {},
        Step::Restart { .. } => {},
        Step::Compact { .. } => {},
        Step::InstallSnapshot { .. } => {},
    }
}

/// What an event does to the records: the nodes but the event's own stay
/// as they are; the log that the node stands for election with, and the log
/// that it holds when it first gives a vote in a term, come on record; and
/// every other log on record stays as it is.
pub open spec fn record_effect(c: ClusterModel, step: Step) -> bool {
    let d = c.step(step);
    let i = step.node();
    let n = c.nodes[i];
    let stands = step is Timeout && n.can_stand();
    let stood_in = (n.term() + 1) as u64;
    let early = c.early_vote(step);
    &&& d.nodes.contains_key(i)
    &&& d.nodes[i] == c.node_after(step)
    &&& c.anchored(c.full[i])
    &&& sorted(c.full[i])
    &&& forall|j: NodeId| #[trigger]
        d.nodes.contains_key(j) ==> c.nodes.contains_key(j) && (j != i ==> d.nodes[j]
            == c.nodes[j])
    &&& forall|t: u64, a: NodeId| #[trigger]
        d.candidacy_log.contains_key((t, a)) ==> (if stands && (t, a) == (stood_in, i) {
            d.candidacy_log[(t, a)] == c.full[i]
        } else {
            c.candidacy_log.contains_key((t, a)) && d.candidacy_log[(t, a)] == c.candidacy_log[(
                t,
                a,
            )]
        })
    &&& forall|t: u64, v: NodeId| #[trigger]
        d.vote_log.contains_key((t, v)) ==> (if early == Some(t) && v == i {
            d.vote_log[(t, v)] == c.full[i] && !c.vote_log.contains_key((t, v))
                && !c.term_log.contains_key(t)
        } else {
            c.vote_log.contains_key((t, v)) && d.vote_log[(t, v)] == c.vote_log[(t, v)]
        })
    &&& forall|t: u64, v: NodeId| #[trigger]
        c.vote_log.contains_key((t, v)) ==> d.vote_log.contains_key((t, v)) && d.vote_log[(t, v)]
            == c.vote_log[(t, v)]
    &&& forall|t: u64, a: NodeId| #[trigger]
        c.candidacy_log.contains_key((t, a)) ==> d.candidacy_log.contains_key((t, a))
            && d.candidacy_log[(t, a)] == c.candidacy_log[(t, a)]
}

/// What an event does to the records is as `record_effect` says.
pub proof fn lemma_record_effect(c: ClusterModel, step: Step)
    requires
        c.inv(),
        c.record_inv(),
        c.enabled(step),
    ensures
        record_effect(c, step),
{
    let d = c.step(step);
    let i = step.node();
    let n = c.nodes[i];
    let stands = step is Timeout && n.can_stand();
    let stood_in = (n.term() + 1) as u64;
    assert(node_plain(n, i, c.config, c.full[i]));
    assert(d.nodes.contains_key(i));
    assert(c.anchored(c.full[i]));
    assert(sorted(c.full[i]));
    assert forall|t: u64, a: NodeId| #[trigger]
        c.candidacy_log.contains_key((t, a)) implies d.candidacy_log.contains_key((t, a))
        && d.candidacy_log[(t, a)] == c.candidacy_log[(t, a)] by {
        if stands && (t, a) == (stood_in, i) {
            assert(c.nodes[a].term() >= t);
        }
    }
}

/// An event keeps it that the log that a node stood for election with is on
/// record.
pub proof fn lemma_candidacies_recorded_step(c: ClusterModel, step: Step)
    requires
        c.inv(),
        c.record_inv(),
        c.enabled(step),
    ensures
        c.step(step).candidacies_recorded(),
{
    let d = c.step(step);
    let i = step.node();
    let n = c.nodes[i];
    let m = c.node_after(step);
    let term = m.term();
    let leads = m.role == Role::Leader;
    let won = leads && n.role != Role::Leader;
    let stands = step is Timeout && n.can_stand();
    let stood_in = (n.term() + 1) as u64;
    let early = c.early_vote(step);
    lemma_record_effect(c, step);
    lemma_inv_step(c, step);
    lemma_sorted_step(c, step);
    lemma_linked(n.log, c.full[i]);
    lemma_whole_linked(c.full[i]);
    lemma_node_effect(c, step);
    lemma_log_effect(c, step);
    lemma_vote_effect(c, step);
    lemma_granted_after(c, step);
    lemma_step_continues(c, step);
    assert(node_plain(n, i, c.config, c.full[i]));
    assert forall|t: u64, a: NodeId| #[trigger]
        d.candidacy_log.contains_key((t, a)) implies d.nodes.contains_key(a)
        && d.nodes[a].term() >= t && recorded(d, d.candidacy_log[(t, a)], t) by {
        if stands && (t, a) == (stood_in, i) {
            lemma_anchored_continues(c, d, c.full[step.node()]);
        } else {
            assert(c.nodes[a].term() >= t);
            lemma_recorded_continues(c, d, c.candidacy_log[(t, a)], t);
        }
    }
}

/// An event keeps it that every request for a vote tells the truth about
/// the log that its candidate stood with.
pub proof fn lemma_requests_genuine_step(c: ClusterModel, step: Step)
    requires
        c.inv(),
        c.record_inv(),
        c.enabled(step),
    ensures
        c.step(step).requests_genuine(),
{
    let d = c.step(step);
    let i = step.node();
    let n = c.nodes[i];
    let m = c.node_after(step);
    let term = m.term();
    let leads = m.role == Role::Leader;
    let won = leads && n.role != Role::Leader;
    let stands = step is Timeout && n.can_stand();
    let stood_in = (n.term() + 1) as u64;
    let early = c.early_vote(step);
    lemma_record_effect(c, step);
    lemma_inv_step(c, step);
    lemma_sorted_step(c, step);
    lemma_linked(n.log, c.full[i]);
    lemma_whole_linked(c.full[i]);
    lemma_node_effect(c, step);
    lemma_log_effect(c, step);
    lemma_vote_effect(c, step);
    lemma_granted_after(c, step);
    lemma_step_continues(c, step);
    assert(node_plain(n, i, c.config, c.full[i]));
    assert forall|ask: VoteRequest| #[trigger] d.vote_requests.contains(ask) implies {
        &&& d.candidacy_log.contains_key((ask.term, ask.candidate_id))
        &&& ask.last_log_index == d.candidacy_log[(ask.term, ask.candidate_id)].len()
        &&& ask.last_log_term == last_term(d.candidacy_log[(ask.term, ask.candidate_id)])
    } by {
        if c.vote_requests.contains(ask) {
            assert(c.candidacy_log.contains_key((ask.term, ask.candidate_id)));
        }
    }
}

/// An event keeps it that a candidate still holds the log that it stood
/// with.
pub proof fn lemma_candidates_unchanged_step(c: ClusterModel, step: Step)
    requires
        c.inv(),
        c.record_inv(),
        c.enabled(step),
    ensures
        c.step(step).candidates_unchanged(),
{
    let d = c.step(step);
    let i = step.node();
    let n = c.nodes[i];
    let m = c.node_after(step);
    let term = m.term();
    let leads = m.role == Role::Leader;
    let won = leads && n.role != Role::Leader;
    let stands = step is Timeout && n.can_stand();
    let stood_in = (n.term() + 1) as u64;
    let early = c.early_vote(step);
    lemma_record_effect(c, step);
    lemma_inv_step(c, step);
    lemma_sorted_step(c, step);
    lemma_linked(n.log, c.full[i]);
    lemma_whole_linked(c.full[i]);
    lemma_node_effect(c, step);
    lemma_log_effect(c, step);
    lemma_vote_effect(c, step);
    lemma_granted_after(c, step);
    lemma_step_continues(c, step);
    assert(node_plain(n, i, c.config, c.full[i]));
    assert forall|j: NodeId|
        d.nodes.contains_key(j) && (#[trigger] d.nodes[j]).role
            == Role::Candidate implies d.candidacy_log.contains_key((d.nodes[j].term(), j))
        && d.candidacy_log[(d.nodes[j].term(), j)] == d.full[j] by {
        if j != i {
            assert(c.nodes[j].role == Role::Candidate);
            assert(c.candidacy_log.contains_key((c.nodes[j].term(), j)));
        } else if !(step is Timeout && m.term() == n.term() + 1) {
            assert(c.candidacy_log.contains_key((n.term(), i)));
        }
    }
}

/// An event keeps it that the log of a term starts with the log that its
/// winner stood with.
pub proof fn lemma_term_logs_from_candidacy_step(c: ClusterModel, step: Step)
    requires
        c.inv(),
        c.record_inv(),
        c.enabled(step),
    ensures
        c.step(step).term_logs_from_candidacy(),
{
    let d = c.step(step);
    let i = step.node();
    let n = c.nodes[i];
    let m = c.node_after(step);
    let term = m.term();
    let leads = m.role == Role::Leader;
    let won = leads && n.role != Role::Leader;
    let stands = step is Timeout && n.can_stand();
    let stood_in = (n.term() + 1) as u64;
    let early = c.early_vote(step);
    lemma_record_effect(c, step);
    lemma_inv_step(c, step);
    lemma_sorted_step(c, step);
    lemma_linked(n.log, c.full[i]);
    lemma_whole_linked(c.full[i]);
    lemma_node_effect(c, step);
    lemma_log_effect(c, step);
    lemma_vote_effect(c, step);
    lemma_granted_after(c, step);
    lemma_step_continues(c, step);
    assert(node_plain(n, i, c.config, c.full[i]));
    assert forall|t: u64| #[trigger] d.term_log.contains_key(t) implies d.candidacy_log.contains_key(
        (t, d.winner[t]),
    ) && agree(
        d.candidacy_log[(t, d.winner[t])],
        d.term_log[t],
        d.candidacy_log[(t, d.winner[t])].len() as int,
    ) by {
        if leads && t == term {
            if won {
                if !(step is Timeout) {
                    assert(c.candidacy_log.contains_key((n.term(), i)));
                }
            } else {
                assert(c.term_log.contains_key(t));
                assert(c.elected.contains((t, c.winner[t])));
                assert(c.elected.contains((t, i)));
                lemma_one_winner(c, t, i, c.winner[t]);
                assert(c.candidacy_log.contains_key((t, i)));
                assert(c.term_log[t] == c.full[step.node()]);
            }
        } else {
            assert(c.term_log.contains_key(t));
            assert(d.winner[t] == c.winner[t]);
            assert(c.candidacy_log.contains_key((t, c.winner[t])));
        }
    }
}

/// An event keeps it that the log that a voter held when it gave its vote
/// is on record.
pub proof fn lemma_votes_recorded_step(c: ClusterModel, step: Step)
    requires
        c.inv(),
        c.record_inv(),
        c.enabled(step),
    ensures
        c.step(step).votes_recorded(),
{
    let d = c.step(step);
    let i = step.node();
    let n = c.nodes[i];
    let m = c.node_after(step);
    let term = m.term();
    let leads = m.role == Role::Leader;
    let won = leads && n.role != Role::Leader;
    let stands = step is Timeout && n.can_stand();
    let stood_in = (n.term() + 1) as u64;
    let early = c.early_vote(step);
    lemma_record_effect(c, step);
    lemma_inv_step(c, step);
    lemma_sorted_step(c, step);
    lemma_linked(n.log, c.full[i]);
    lemma_whole_linked(c.full[i]);
    lemma_node_effect(c, step);
    lemma_log_effect(c, step);
    lemma_vote_effect(c, step);
    lemma_granted_after(c, step);
    lemma_step_continues(c, step);
    assert(node_plain(n, i, c.config, c.full[i]));
    assert forall|t: u64, v: NodeId| #[trigger] d.vote_log.contains_key((t, v)) implies d.nodes.contains_key(
        v,
    ) && d.nodes[v].term() >= t && recorded(d, d.vote_log[(t, v)], t) by {
        if early == Some(t) && v == i {
            lemma_anchored_continues(c, d, c.full[step.node()]);
            assert forall|k: int| 0 <= k < c.full[step.node()].len() implies (
            #[trigger] c.full[step.node()][k]).term <= (t - 1) as u64 by {
                assert(c.term_log.contains_key(c.full[step.node()][k].term));
                assert(c.full[step.node()][k].term <= n.term());
            }
            match step {
                Step::RequestVote { ask, .. } => {
                    assert(c.candidacy_log.contains_key((ask.term, ask.candidate_id)));
                },
                _ => {},
            }
        } else {
            assert(c.nodes[v].term() >= t);
            lemma_recorded_continues(c, d, c.vote_log[(t, v)], t);
        }
    }
}

/// An event keeps it that a voter on record that is still in the term of
/// its vote remembers whom it voted for.
pub proof fn lemma_voters_remember_step(c: ClusterModel, step: Step)
    requires
        c.inv(),
        c.record_inv(),
        c.enabled(step),
    ensures
        c.step(step).voters_remember(),
{
    let d = c.step(step);
    let i = step.node();
    let n = c.nodes[i];
    let m = c.node_after(step);
    let term = m.term();
    let leads = m.role == Role::Leader;
    let won = leads && n.role != Role::Leader;
    let stands = step is Timeout && n.can_stand();
    let stood_in = (n.term() + 1) as u64;
    let early = c.early_vote(step);
    lemma_record_effect(c, step);
    lemma_inv_step(c, step);
    lemma_sorted_step(c, step);
    lemma_linked(n.log, c.full[i]);
    lemma_whole_linked(c.full[i]);
    lemma_node_effect(c, step);
    lemma_log_effect(c, step);
    lemma_vote_effect(c, step);
    lemma_granted_after(c, step);
    lemma_step_continues(c, step);
    assert(node_plain(n, i, c.config, c.full[i]));
    assert forall|t: u64, v: NodeId| #[trigger]
        d.vote_log.contains_key((t, v)) && d.nodes[v].term() == t implies (
    d.nodes[v].voted_for() matches Some(a) && d.granted(t, v, a)) by {
        if early == Some(t) && v == i {
            match step {
                Step::Timeout { .. } => {
                    assert(d.granted(t, i, i));
                },
                Step::RequestVote { ask, .. } => {
                    assert(d.granted(t, i, ask.candidate_id));
                },
                _ => {},
            }
        } else {
            assert(c.nodes[v].term() >= t);
            if v == i {
                assert(n.term() == t);
                assert(n.voted_for() is Some);
            }
        }
    }
}

/// An event keeps it that every vote that is given before the election of
/// its term is won is on record.
pub proof fn lemma_early_votes_recorded_step(c: ClusterModel, step: Step)
    requires
        c.inv(),
        c.record_inv(),
        c.enabled(step),
    ensures
        c.step(step).early_votes_recorded(),
{
    let d = c.step(step);
    let i = step.node();
    let n = c.nodes[i];
    let m = c.node_after(step);
    let term = m.term();
    let leads = m.role == Role::Leader;
    let won = leads && n.role != Role::Leader;
    let stands = step is Timeout && n.can_stand();
    let stood_in = (n.term() + 1) as u64;
    let early = c.early_vote(step);
    lemma_record_effect(c, step);
    lemma_inv_step(c, step);
    lemma_sorted_step(c, step);
    lemma_linked(n.log, c.full[i]);
    lemma_whole_linked(c.full[i]);
    lemma_node_effect(c, step);
    lemma_log_effect(c, step);
    lemma_vote_effect(c, step);
    lemma_granted_after(c, step);
    lemma_step_continues(c, step);
    assert(node_plain(n, i, c.config, c.full[i]));
    assert forall|t: u64, v: NodeId, a: NodeId| #[trigger]
        d.granted(t, v, a) && !d.term_log.contains_key(t) implies d.vote_log.contains_key(
        (t, v),
    ) by {
        if c.granted(t, v, a) {
            assert(c.vote_log.contains_key((t, v)));
        }
    }
}

/// An event keeps it that the log that a candidate stood with was at least
/// as up to date as the logs of its voters on record.
pub proof fn lemma_votes_for_newer_step(c: ClusterModel, step: Step)
    requires
        c.inv(),
        c.record_inv(),
        c.enabled(step),
    ensures
        c.step(step).votes_for_newer(),
{
    let d = c.step(step);
    let i = step.node();
    let n = c.nodes[i];
    let m = c.node_after(step);
    let term = m.term();
    let leads = m.role == Role::Leader;
    let won = leads && n.role != Role::Leader;
    let stands = step is Timeout && n.can_stand();
    let stood_in = (n.term() + 1) as u64;
    let early = c.early_vote(step);
    lemma_record_effect(c, step);
    lemma_inv_step(c, step);
    lemma_sorted_step(c, step);
    lemma_linked(n.log, c.full[i]);
    lemma_whole_linked(c.full[i]);
    lemma_node_effect(c, step);
    lemma_log_effect(c, step);
    lemma_vote_effect(c, step);
    lemma_granted_after(c, step);
    lemma_step_continues(c, step);
    assert(node_plain(n, i, c.config, c.full[i]));
    assert forall|t: u64, v: NodeId, a: NodeId| #[trigger]
        d.granted(t, v, a) && d.vote_log.contains_key(
            (t, v),
        ) implies d.candidacy_log.contains_key((t, a)) && at_least_as_new(
        d.candidacy_log[(t, a)],
        d.vote_log[(t, v)],
    ) by {
        if early == Some(t) && v == i {
            // The vote is the first that the node gives in the term.
            if c.granted(t, v, a) {
                assert(c.nodes[v].term() >= t);
                if !(step is Timeout) {
                    assert(c.vote_log.contains_key((t, v)));
                }
            }
            match step {
                Step::RequestVote { ask, .. } => {
                    assert(d.granted(t, i, ask.candidate_id));
                    assert(c.candidacy_log.contains_key((ask.term, ask.candidate_id)));
                },
                _ => {},
            }
        } else {
            assert(c.vote_log.contains_key((t, v)));
            if !c.granted(t, v, a) {
                // A second vote in the term goes to the candidate of the first.
                assert(v == i);
                assert(c.nodes[v].term() >= t);
                match step {
                    Step::RequestVote { ask, .. } => {
                        assert(n.term() == t);
                        assert(n.voted_for() == Some(ask.candidate_id));
                        assert(c.granted(t, v, ask.candidate_id));
                    },
                    _ => {},
                }
            }
        }
    }
}

/// An event keeps it that the votes that a winner counted are on record.
pub proof fn lemma_electors_recorded_step(c: ClusterModel, step: Step)
    requires
        c.inv(),
        c.record_inv(),
        c.enabled(step),
    ensures
        c.step(step).electors_recorded(),
{
    let d = c.step(step);
    let i = step.node();
    let n = c.nodes[i];
    let m = c.node_after(step);
    let term = m.term();
    let leads = m.role == Role::Leader;
    let won = leads && n.role != Role::Leader;
    let stands = step is Timeout && n.can_stand();
    let stood_in = (n.term() + 1) as u64;
    let early = c.early_vote(step);
    lemma_record_effect(c, step);
    lemma_inv_step(c, step);
    lemma_sorted_step(c, step);
    lemma_linked(n.log, c.full[i]);
    lemma_whole_linked(c.full[i]);
    lemma_node_effect(c, step);
    lemma_log_effect(c, step);
    lemma_vote_effect(c, step);
    lemma_granted_after(c, step);
    lemma_step_continues(c, step);
    assert(node_plain(n, i, c.config, c.full[i]));
    assert forall|t: u64, l: NodeId, v: NodeId|
        d.elected.contains((t, l)) && #[trigger] d.electors[(t, l)].contains(
            v,
        ) implies d.vote_log.contains_key((t, v)) by {
        if won && (t, l) == (term, i) {
            assert(d.electors[(t, l)] == m.votes);
            assert(d.nodes[i].votes.contains(v));
            assert(d.granted(t, v, i));
            assert(!c.term_log.contains_key(t));
            if c.granted(t, v, i) {
                assert(c.vote_log.contains_key((t, v)));
            }
        } else {
            assert(c.elected.contains((t, l)));
            assert(d.electors[(t, l)] == c.electors[(t, l)]);
            assert(c.electors[(t, l)].contains(v));
        }
    }
}

/// An event keeps what holds of the records.
pub proof fn lemma_record_step(c: ClusterModel, step: Step)
    requires
        c.inv(),
        c.record_inv(),
        c.enabled(step),
    ensures
        c.step(step).record_inv(),
{
    lemma_sorted_step(c, step);
    lemma_candidacies_recorded_step(c, step);
    lemma_requests_genuine_step(c, step);
    lemma_candidates_unchanged_step(c, step);
    lemma_term_logs_from_candidacy_step(c, step);
    lemma_votes_recorded_step(c, step);
    lemma_voters_remember_step(c, step);
    lemma_early_votes_recorded_step(c, step);
    lemma_votes_for_newer_step(c, step);
    lemma_electors_recorded_step(c, step);
}

impl ClusterModel {
    /// Whether the node has answered a request of the term with the news
    /// that its log agrees with the leader's up to `matched`.
    pub open spec fn answered(self, v: NodeId, t: u64, matched: u64) -> bool {
        self.append_results.contains(
            AppendAnswer {
                from: v,
                result: AppendResult {
                    term: t,
                    outcome: AppendOutcome::Appended { match_index: matched },
                },
            },
        )
    }

    /// Whether the node stands for the first `n` entries of the log of the
    /// term: it won the election of the term and added them to its log, or
    /// it has answered that its log agrees with the leader's that far.
    pub open spec fn covers(self, v: NodeId, t: u64, n: int) -> bool {
        ||| self.term_log.contains_key(t) && self.winner[t] == v && n <= self.term_log[t].len()
        ||| exists|matched: u64| matched >= n && #[trigger] self.answered(v, t, matched)
    }

    /// Whether the winner of a term after `t` and up to `upto` came to lead
    /// without the first `n` entries of the log of `t`.
    pub open spec fn lost_to(self, t: u64, n: int, upto: int) -> bool {
        exists|x: u64|
            t < x <= upto && #[trigger] self.term_log.contains_key(x) && !agree(
                self.term_log[x],
                self.term_log[t],
                n,
            )
    }

    /// Whether the node still holds the first `n` entries of the log of the
    /// term, unless it has reached the term of a leader that came to lead
    /// without them.
    pub open spec fn kept(self, v: NodeId, t: u64, n: int) -> bool {
        agree(self.full[v], self.term_log[t], n) || self.lost_to(
            t,
            n,
            self.nodes[v].term() as int,
        )
    }

    /// A node keeps what it stands for, as `kept` says.
    pub open spec fn covered_kept(self) -> bool {
        forall|v: NodeId, t: u64, n: int| #[trigger]
            self.covers(v, t, n) ==> {
                &&& self.nodes.contains_key(v)
                &&& self.nodes[v].term() >= t
                &&& self.term_log.contains_key(t)
                &&& n <= self.term_log[t].len()
                &&& self.kept(v, t, n)
            }
    }

    /// The log that a voter held when it gave its vote held what the voter
    /// stood for in earlier terms, unless a leader in between came to lead
    /// without it.
    pub open spec fn votes_keep(self) -> bool {
        forall|t2: u64, v: NodeId, t: u64, n: int|
            #[trigger] self.vote_log.contains_key((t2, v)) && t < t2 && #[trigger] self.covers(
                v,
                t,
                n,
            ) ==> agree(self.vote_log[(t2, v)], self.term_log[t], n) || self.lost_to(t, n, t2 - 1)
    }

    /// What a leader knows of a peer's log, the peer has answered.
    pub open spec fn matches_answered(self) -> bool {
        forall|l: NodeId, v: NodeId|
            self.nodes.contains_key(l) && self.nodes[l].role == Role::Leader
                && #[trigger] self.nodes[l].match_index.contains_key(v)
                && self.nodes[l].match_index[v] >= 1 ==> self.answered(
                v,
                self.nodes[l].term(),
                self.nodes[l].match_index[v],
            )
    }

    /// What holds of what nodes stand for in every cluster that can be
    /// reached.
    pub open spec fn cover_inv(self) -> bool {
        &&& self.covered_kept()
        &&& self.votes_keep()
        &&& self.matches_answered()
    }

    /// Whether the first `n` entries of the log of the term are committed:
    /// the last of them is of that term, and a quorum stands for them.
    pub open spec fn committed(self, t: u64, n: int) -> bool {
        &&& n >= 1
        &&& self.term_log.contains_key(t)
        &&& n <= self.term_log[t].len()
        &&& self.term_log[t][n - 1].term == t
        &&& self.config.is_quorum(Set::new(|v: NodeId| self.covers(v, t, n)))
    }
}

/// What an event does to the logs of the terms: each stays as it is or
/// gets one entry of its own term more.
pub proof fn lemma_term_logs_grow(c: ClusterModel, step: Step)
    requires
        c.inv(),
        c.enabled(step),
    ensures
        forall|x: u64| #[trigger]
            c.term_log.contains_key(x) ==> {
                let old = c.term_log[x];
                let new = c.step(step).term_log[x];
                &&& c.step(step).term_log.contains_key(x)
                &&& c.step(step).winner[x] == c.winner[x]
                &&& new == old || (new.len() == old.len() + 1 && agree(old, new, old.len() as int)
                    && new[old.len() as int].term == x)
            },
        forall|x: u64| #[trigger]
            c.step(step).term_log.contains_key(x) && !c.term_log.contains_key(x) ==> x
                == c.node_after(step).term() && c.node_after(step).role == Role::Leader
                && c.step(step).winner[x] == step.node() && c.step(step).term_log[x]
                == c.full_after(step),
{
    let d = c.step(step);
    let i = step.node();
    let n = c.nodes[i];
    let m = c.node_after(step);
    lemma_inv_step(c, step);
    lemma_node_effect(c, step);
    lemma_log_effect(c, step);
    lemma_step_continues(c, step);
    assert(node_plain(n, i, c.config, c.full[i]));
    lemma_linked(n.log, c.full[i]);
    lemma_whole_linked(c.full[i]);
    assert forall|x: u64| #[trigger] c.term_log.contains_key(x) implies {
        let old = c.term_log[x];
        let new = d.term_log[x];
        &&& d.term_log.contains_key(x)
        &&& d.winner[x] == c.winner[x]
        &&& new == old || (new.len() == old.len() + 1 && agree(old, new, old.len() as int)
            && new[old.len() as int].term == x)
    } by {
        if m.role == Role::Leader && x == m.term() {
            assert(n.role == Role::Leader);
            assert(c.term_log[x] == c.full[step.node()]);
            assert(d.term_log[x] == c.full_after(step));
            assert(c.elected.contains((x, c.winner[x])));
            assert(c.elected.contains((x, i)));
            lemma_one_winner(c, x, i, c.winner[x]);
        } else {
            assert(d.term_log[x] == c.term_log[x]);
        }
    }
}

/// Once a later leader has come to lead without some entries, no event
/// gives them to it.
pub proof fn lemma_lost_stays(c: ClusterModel, step: Step, t: u64, n: int, upto: int)
    requires
        c.inv(),
        c.enabled(step),
        c.term_log.contains_key(t),
        n <= c.term_log[t].len(),
        c.lost_to(t, n, upto),
    ensures
        c.step(step).lost_to(t, n, upto),
{
    let d = c.step(step);
    lemma_term_logs_grow(c, step);
    let x = choose|x: u64|
        t < x <= upto && #[trigger] c.term_log.contains_key(x) && !agree(
            c.term_log[x],
            c.term_log[t],
            n,
        );
    assert(c.term_log.contains_key(x));
    assert(c.term_log.contains_key(t));
    let ox = c.term_log[x];
    let nx = d.term_log[x];
    let ot = c.term_log[t];
    let nt = d.term_log[t];
    assert(agree(ot, nt, ot.len() as int));
    if agree(nx, nt, n) {
        if ox.len() >= n {
            assert forall|j: int| 0 <= j < n implies ox[j] == ot[j] by {
                assert(nx[j] == nt[j]);
            }
            assert(false);
        } else {
            let j = ox.len() as int;
            assert(nx[j].term == x);
            assert(nx[j] == nt[j]);
            assert(nt[j] == ot[j]);
            assert(terms_upto(ot, t));
            assert(false);
        }
    }
    assert(d.term_log.contains_key(x));
}

/// The log of every later term starts with what was committed in an
/// earlier one. The winner of the later term had the vote of a node that
/// stands for the committed entries; that node held them when it voted,
/// for no leader in between had come to lead without them; and the winner's
/// log was at least as up to date as the voter's.
pub proof fn lemma_later_terms_hold(c: ClusterModel, t: u64, n: int, t2: u64)
    requires
        c.inv(),
        c.record_inv(),
        c.cover_inv(),
        c.committed(t, n),
        t < t2,
        c.term_log.contains_key(t2),
    ensures
        agree(c.term_log[t2], c.term_log[t], n),
    decreases t2 - t,
{
    let w = c.winner[t2];
    let committed_log = c.term_log[t];
    assert(c.elected.contains((t2, w)));
    let voters = c.electors[(t2, w)];
    let coverers = Set::new(|v: NodeId| c.covers(v, t, n));
    assert(c.config.is_quorum(voters));
    lemma_majorities_meet(c.config.members, voters, coverers);
    let v = choose|v: NodeId|
        c.config.members.contains(v) && voters.contains(v) && coverers.contains(v);
    assert(c.electors[(t2, w)].contains(v));
    assert(c.granted(t2, v, w));
    assert(c.vote_log.contains_key((t2, v)));
    assert(c.covers(v, t, n));
    let held = c.vote_log[(t2, v)];
    assert(c.candidacy_log.contains_key((t2, w)));
    let stood = c.candidacy_log[(t2, w)];
    assert(at_least_as_new(stood, held));
    assert(recorded(c, held, t2));
    assert(recorded(c, stood, t2));
    if c.lost_to(t, n, t2 - 1) {
        let x = choose|x: u64|
            t < x <= t2 - 1 && #[trigger] c.term_log.contains_key(x) && !agree(
                c.term_log[x],
                c.term_log[t],
                n,
            );
        lemma_later_terms_hold(c, t, n, x);
        assert(false);
    }
    assert(agree(held, committed_log, n));
    assert(held[n - 1] == committed_log[n - 1]);
    assert(held[n - 1].term <= held[held.len() - 1].term);
    assert(last_term(held) >= t);
    assert(stood.len() >= 1);
    let ts = last_term(stood);
    assert(stood[stood.len() - 1].term == ts);
    assert(c.term_log.contains_key(ts));
    assert(agree(stood, c.term_log[ts], stood.len() as int));
    assert(agree(stood, committed_log, n)) by {
        if ts == last_term(held) {
            assert(held[held.len() - 1].term == ts);
            assert(agree(held, c.term_log[ts], held.len() as int));
            assert forall|j: int| 0 <= j < n implies stood[j] == committed_log[j] by {
                assert(stood[j] == c.term_log[ts][j]);
                assert(held[j] == c.term_log[ts][j]);
            }
        } else {
            assert(ts > t);
            assert(ts <= t2 - 1);
            lemma_later_terms_hold(c, t, n, ts);
            assert(agree(c.term_log[ts], committed_log, n));
            assert(sorted(c.term_log[ts]));
            if stood.len() < n {
                assert(c.term_log[ts][stood.len() - 1] == stood[stood.len() - 1]);
                assert(c.term_log[ts][stood.len() - 1].term <= c.term_log[ts][n - 1].term);
                assert(c.term_log[ts][n - 1] == committed_log[n - 1]);
                assert(false);
            }
            assert forall|j: int| 0 <= j < n implies stood[j] == committed_log[j] by {
                assert(stood[j] == c.term_log[ts][j]);
            }
        }
    }
    assert(c.winner[t2] == w);
    assert(agree(stood, c.term_log[t2], stood.len() as int));
    assert forall|j: int| 0 <= j < n implies c.term_log[t2][j] == committed_log[j] by {
        assert(stood[j] == c.term_log[t2][j]);
    }
}

/// What an accepted request to append entries does: the answer names the
/// request's term and the index of the last of its entries; up to that
/// index the whole log is then the log of the term; and the log was cut,
/// if at all, behind every entry that the node had committed.
pub proof fn lemma_answer_effect(c: ClusterModel, step: Step)
    requires
        c.inv(),
        c.enabled(step),
    ensures
        step matches Step::AppendEntries { node, request } ==> ({
            let n = c.nodes[node];
            let m = c.node_after(step);
            let r = c.append_answer(node, request);
            let last_new = request.prev_log_index + request.entries.len();
            let k = first_conflict(c.whole_node(node).log, request.entries, 0);
            r.outcome matches AppendOutcome::Appended { match_index } ==> {
                &&& r.term == request.term
                &&& m.term() == request.term
                &&& n.term() <= request.term
                &&& m.role == Role::Follower
                &&& match_index == last_new
                &&& last_new <= c.term_log[request.term].len()
                &&& agree(c.full_after(step), c.term_log[request.term], last_new)
                &&& k < request.entries.len() ==> request.prev_log_index + k >= n.commit_index
                &&& agree(c.full_after(step), c.full[node], request.prev_log_index + k)
                &&& request.prev_log_index + k <= c.full[node].len()
                &&& m.commit_index == n.commit_index || (m.commit_index > n.commit_index
                    && m.commit_index <= last_new && m.commit_index <= request.leader_commit)
            }
        }),
        step matches Step::AppendEntries { node, request } ==> (!(c.append_answer(
            node,
            request,
        ).outcome is Appended) ==> c.full_after(step) == c.full[node] && c.node_after(
            step,
        ).commit_index == c.nodes[node].commit_index),
{
    match step {
        Step::AppendEntries { node, request } => {
            let n = c.nodes[node];
            let r = c.append_answer(node, request);
            assert(node_plain(n, node, c.config, c.full[node]));
            lemma_linked(n.log, c.full[node]);
            if r.outcome is Appended {
                let lead = c.term_log[request.term];
                assert(window(request, lead));
                lemma_accept_effect(c, node, request);
                lemma_merge_anchored(c, c.whole_node(node), request, lead);
            } else {
                lemma_log_effect(c, step);
            }
        },
        _ => {},
    }
}

/// Two anchored logs that hold an entry of the same term at an index are
/// the same up to that index.
pub proof fn lemma_anchored_agree(
    c: ClusterModel,
    a: Seq<EntryModel>,
    b: Seq<EntryModel>,
    index: int,
)
    requires
        c.anchored(a),
        c.anchored(b),
        1 <= index <= a.len(),
        index <= b.len(),
        a[index - 1].term == b[index - 1].term,
    ensures
        agree(a, b, index),
{
    let t = a[index - 1].term;
    assert(agree(a, c.term_log[t], index));
    assert(agree(b, c.term_log[t], index));
    assert forall|j: int| 0 <= j < index implies a[j] == b[j] by {
        assert(a[j] == c.term_log[t][j]);
        assert(b[j] == c.term_log[t][j]);
    }
}

/// What is backed up to an index in two logs is the same in both.
pub proof fn lemma_backed_agree(
    c: ClusterModel,
    a: Seq<EntryModel>,
    upto_a: int,
    term_a: u64,
    b: Seq<EntryModel>,
    upto_b: int,
    term_b: u64,
    index: int,
)
    requires
        c.full_inv(),
        c.backed(a, upto_a, term_a),
        c.backed(b, upto_b, term_b),
        0 <= index <= upto_a,
        index <= upto_b,
    ensures
        agree(a, b, index),
{
    if index >= 1 {
        let (t, n) = choose|t: u64, n: int|
            t <= term_a && n >= upto_a && #[trigger] c.committed(t, n) && agree(
                a,
                c.term_log[t],
                upto_a,
            );
        let (t2, n2) = choose|t2: u64, n2: int|
            t2 <= term_b && n2 >= upto_b && #[trigger] c.committed(t2, n2) && agree(
                b,
                c.term_log[t2],
                upto_b,
            );
        assert forall|j: int| 0 <= j < index implies a[j] == b[j] by {
            lemma_committed_agree(c, t, n, t2, n2, j + 1);
            assert(a[j] == c.term_log[t][j]);
            assert(b[j] == c.term_log[t2][j]);
        }
    }
}

/// What a request to install an image does at the node that it reaches. If
/// the request is not of an earlier term and the node does not lead in its
/// term, the node follows the leader of that term and answers that its log
/// agrees with the leader's up to the end of the image; and so it does:
/// the whole log of the node then starts with the entries that the image
/// includes. Any other request changes nothing.
pub proof fn lemma_install_effect(c: ClusterModel, node: NodeId, request: SnapshotMsg)
    requires
        c.full_inv(),
        c.enabled(Step::InstallSnapshot { node, request }),
    ensures
        ({
            let step = Step::InstallSnapshot { node, request };
            let n = c.nodes[node];
            let m = c.node_after(step);
            let r = c.install_answer(node, request).1;
            let last = request.image.last_applied as int;
            if r.outcome is Appended {
                &&& r.term == request.term
                &&& r.outcome == (AppendOutcome::Appended {
                    match_index: request.image.last_applied,
                })
                &&& m.term() == request.term
                &&& n.term() <= request.term
                &&& m.role == Role::Follower
                &&& last == request.prefix.len()
                &&& agree(c.full_after(step), request.prefix, last)
                &&& agree(c.full_after(step), c.term_log[request.term], last)
                &&& c.installs(node, request) ==> m.commit_index == last && m.state
                    == request.image && m.snapshot == Some(request.image) && m.log.base_index
                    == last
                &&& !c.installs(node, request) ==> m.commit_index == n.commit_index && m.state
                    == n.state && m.snapshot == n.snapshot && m.log == n.log
            } else {
                &&& m == n
                &&& c.full_after(step) == c.full[node]
                &&& !c.installs(node, request)
            }
        }),
{
    let step = Step::InstallSnapshot { node, request };
    let n = c.nodes[node];
    let m = c.node_after(step);
    let r = c.install_answer(node, request).1;
    let fb = c.full[node];
    let fa = c.full_after(step);
    let last = request.image.last_applied as int;
    let lead = c.term_log[request.term];
    assert(node_plain(n, node, c.config, fb));
    lemma_linked(n.log, fb);
    assert(c.snapshots.contains(request));
    assert(image_of(request, lead, c.config));
    if r.outcome is Appended {
        if c.installs(node, request) {
            if c.keeps_log(node, request) {
                assert(fa == fb);
                assert(n.log.has(last));
                assert(fb[last - 1].term == request.prefix[last - 1].term);
                assert(c.anchored(fb));
                assert(c.anchored(lead));
                lemma_anchored_prefix(c, lead, request.prefix);
                lemma_anchored_agree(c, fb, request.prefix, last);
            } else {
                assert(fa == request.prefix);
            }
        } else {
            assert(fa == fb);
            assert(c.backed(fb, n.commit_index as int, n.term()));
            assert(c.backed(request.prefix, last, request.term));
            lemma_backed_agree(
                c,
                fb,
                n.commit_index as int,
                n.term(),
                request.prefix,
                last,
                request.term,
                last,
            );
        }
        assert forall|j: int| 0 <= j < last implies fa[j] == lead[j] by {
            assert(fa[j] == request.prefix[j]);
            assert(request.prefix[j] == lead[j]);
        }
    }
}

/// What the answer that a node gives to a leader tells: the node has
/// reached the term of the answer and follows its leader, and its whole
/// log is the log of that term up to the index that the answer names.
pub proof fn lemma_vouch_effect(c: ClusterModel, step: Step)
    requires
        c.full_inv(),
        c.enabled(step),
    ensures
        c.answer_of(step) matches Some(r) ==> (r.outcome matches AppendOutcome::Appended {
            match_index,
        } ==> {
            let m = c.node_after(step);
            let n = c.nodes[step.node()];
            &&& m.term() == r.term
            &&& n.term() <= r.term
            &&& m.role == Role::Follower
            &&& c.term_log.contains_key(r.term)
            &&& match_index <= c.term_log[r.term].len()
            &&& agree(c.full_after(step), c.term_log[r.term], match_index as int)
        }),
{
    match step {
        Step::AppendEntries { node, request } => {
            lemma_answer_effect(c, step);
            assert(c.appends.contains(request));
        },
        Step::InstallSnapshot { node, request } => {
            lemma_install_effect(c, node, request);
            assert(c.snapshots.contains(request));
            assert(image_of(request, c.term_log[request.term], c.config));
        },
        _ => {},
    }
}

/// What a node stands for after an event it stood for before, or it stands
/// for it by the answer that it gave in the event, or as the leader that
/// it is after the event.
pub proof fn lemma_covers_after(c: ClusterModel, step: Step, v: NodeId, t: u64, n: int)
    requires
        c.inv(),
        c.enabled(step),
        c.step(step).covers(v, t, n),
    ensures
        ({
            let m = c.node_after(step);
            ||| c.covers(v, t, n)
            ||| v == step.node() && m.role == Role::Leader && m.term() == t && n
                <= c.full_after(step).len()
            ||| v == step.node() && (c.answer_of(step) matches Some(r) && r.term == t && (
            r.outcome matches AppendOutcome::Appended { match_index } && match_index >= n))
        }),
{
    let d = c.step(step);
    let m = c.node_after(step);
    lemma_term_logs_grow(c, step);
    if d.term_log.contains_key(t) && d.winner[t] == v && n <= d.term_log[t].len() {
        if c.term_log.contains_key(t) {
            if d.term_log[t] != c.term_log[t] {
                lemma_inv_step(c, step);
                lemma_node_effect(c, step);
                assert(m.role == Role::Leader && m.term() == t);
                assert(d.term_log[t] == c.full_after(step));
                assert(d.elected.contains((t, step.node())));
                assert(c.elected.contains((t, c.winner[t])));
                assert(d.elected.contains((t, c.winner[t])));
                lemma_one_winner(d, t, step.node(), c.winner[t]);
            }
        } else {
            assert(d.term_log[t] == c.full_after(step));
        }
    } else {
        let matched = choose|matched: u64| matched >= n && #[trigger] d.answered(v, t, matched);
        assert(d.answered(v, t, matched));
        if !c.answered(v, t, matched) {
            let sent = AppendAnswer {
                from: v,
                result: AppendResult {
                    term: t,
                    outcome: AppendOutcome::Appended { match_index: matched },
                },
            };
            assert(d.append_results.contains(sent));
            assert(!c.append_results.contains(sent));
            assert(c.answer_of(step) is Some);
            assert(sent == (AppendAnswer { from: step.node(), result: c.answer_of(step)->0 }));
        }
    }
}

/// A follower that holds the first `n` entries of the log of a term and
/// accepts a request of a later leader still holds them, unless that
/// leader came to lead without them.
pub proof fn lemma_kept_through_merge(c: ClusterModel, node: NodeId, request: AppendMsg, t: u64, n: int)
    requires
        c.inv(),
        c.enabled(Step::AppendEntries { node, request }),
        c.append_answer(node, request).outcome is Appended,
        c.term_log.contains_key(t),
        n <= c.term_log[t].len(),
        agree(c.full[node], c.term_log[t], n),
    ensures
        agree(c.term_log[request.term], c.term_log[t], n) ==> agree(
            c.full_after(Step::AppendEntries { node, request }),
            c.term_log[t],
            n,
        ),
{
    let step = Step::AppendEntries { node, request };
    let v = c.whole_node(node);
    let lead = c.term_log[request.term];
    let old_log = c.term_log[t];
    let held = c.full[node];
    let after = c.full_after(step);
    let k = first_conflict(v.log, request.entries, 0);
    let q = request.prev_log_index + k;
    assert(node_plain(c.nodes[node], node, c.config, held));
    assert(window(request, lead));
    lemma_accept_effect(c, node, request);
    lemma_merge_anchored(c, v, request, lead);
    lemma_first_conflict(v.log, request.entries, 0);
    if agree(lead, old_log, n) {
        if k < request.entries.len() {
            // The logs agree up to `n`, so they first differ behind it.
            if q < n {
                assert(held[q] == old_log[q]);
                assert(lead[q] == old_log[q]);
                assert(request.entries[k] == lead[q]);
                assert(request.entries[k].index == q + 1);
                assert(v.log.term_at(q + 1) == Some(held[q].term));
                assert(false);
            }
            assert forall|j: int| 0 <= j < n implies after[j] == old_log[j] by {
                assert(after[j] == held[j]);
            }
        } else {
            assert(whole(after) == v.log);
        }
    }
}

/// A node that holds the first `n` entries of the log of a term and takes
/// an image from a later leader, emptying its log, still holds them, unless
/// that leader came to lead without them.
pub proof fn lemma_kept_through_install(
    c: ClusterModel,
    node: NodeId,
    request: SnapshotMsg,
    t: u64,
    n: int,
)
    requires
        c.full_inv(),
        c.enabled(Step::InstallSnapshot { node, request }),
        c.installs(node, request),
        !c.keeps_log(node, request),
        c.term_log.contains_key(t),
        n <= c.term_log[t].len(),
        agree(c.full[node], c.term_log[t], n),
    ensures
        agree(c.term_log[request.term], c.term_log[t], n) ==> agree(
            c.full_after(Step::InstallSnapshot { node, request }),
            c.term_log[t],
            n,
        ),
{
    let step = Step::InstallSnapshot { node, request };
    let nb = c.nodes[node];
    let lead = c.term_log[request.term];
    let old_log = c.term_log[t];
    let held = c.full[node];
    let after = c.full_after(step);
    let last = request.image.last_applied as int;
    assert(node_plain(nb, node, c.config, held));
    lemma_linked(nb.log, held);
    assert(c.snapshots.contains(request));
    assert(image_of(request, lead, c.config));
    assert(after == request.prefix);
    if agree(lead, old_log, n) {
        if last < n {
            // The node holds an entry at the end of the image, of another term.
            assert(last < held.len());
            assert(nb.log.has(last));
            assert(held[last - 1] == old_log[last - 1]);
            assert(lead[last - 1] == old_log[last - 1]);
            assert(request.prefix[last - 1] == lead[last - 1]);
            assert(false);
        }
        assert forall|j: int| 0 <= j < n implies after[j] == old_log[j] by {
            assert(after[j] == lead[j]);
        }
    }
}

/// The node of an accepted or refused request to append entries keeps what
/// it stood for before, or has reached the term of a leader that came to
/// lead without it.
proof fn lemma_kept_own_merge(c: ClusterModel, node: NodeId, request: AppendMsg, t: u64, n: int)
    requires
        c.full_inv(),
        c.enabled(Step::AppendEntries { node, request }),
        c.covers(node, t, n),
        !c.lost_to(t, n, c.nodes[node].term() as int),
    ensures
        c.step(Step::AppendEntries { node, request }).kept(node, t, n),
{
    let step = Step::AppendEntries { node, request };
    let d = c.step(step);
    let i = step.node();
    let nb = c.nodes[i];
    let m = c.node_after(step);
    lemma_inv_step(c, step);
    lemma_node_effect(c, step);
    lemma_term_logs_grow(c, step);
    assert(d.nodes.contains_key(i));
    assert(d.nodes[i] == m);
    assert(d.full[i] == c.full_after(step));
    assert(c.term_log.contains_key(t));
    assert(c.kept(i, t, n));
    let old_log = c.term_log[t];
    let held = c.full[i];
    assert(agree(old_log, d.term_log[t], old_log.len() as int));
    assert(agree(held, old_log, n));
    if c.append_answer(node, request).outcome is Appended {
        lemma_answer_effect(c, step);
        assert(nb.term() >= t);
        assert(request.term >= t);
        assert(d.term_log == c.term_log);
        assert(c.term_log.contains_key(request.term));
        lemma_kept_through_merge(c, node, request, t, n);
        if !agree(c.term_log[request.term], old_log, n) {
            assert(request.term != t);
            assert(d.term_log.contains_key(request.term));
            assert(d.lost_to(t, n, m.term() as int));
        }
    } else {
        lemma_refuse_effect(c, node, request);
    }
}

/// The node that a request to install an image reaches keeps what it stood
/// for before, or has reached the term of a leader that came to lead
/// without it.
proof fn lemma_kept_own_install(
    c: ClusterModel,
    node: NodeId,
    request: SnapshotMsg,
    t: u64,
    n: int,
)
    requires
        c.full_inv(),
        c.enabled(Step::InstallSnapshot { node, request }),
        c.covers(node, t, n),
        !c.lost_to(t, n, c.nodes[node].term() as int),
    ensures
        c.step(Step::InstallSnapshot { node, request }).kept(node, t, n),
{
    let step = Step::InstallSnapshot { node, request };
    let d = c.step(step);
    let i = step.node();
    let nb = c.nodes[i];
    let m = c.node_after(step);
    lemma_inv_step(c, step);
    lemma_node_effect(c, step);
    lemma_term_logs_grow(c, step);
    assert(d.nodes.contains_key(i));
    assert(d.nodes[i] == m);
    assert(d.full[i] == c.full_after(step));
    assert(c.term_log.contains_key(t));
    assert(c.kept(i, t, n));
    let old_log = c.term_log[t];
    let held = c.full[i];
    assert(agree(old_log, d.term_log[t], old_log.len() as int));
    assert(agree(held, old_log, n));
    lemma_install_effect(c, node, request);
    if c.full_after(step) != held {
        assert(nb.term() >= t);
        assert(request.term >= t);
        assert(d.term_log == c.term_log);
        assert(c.snapshots.contains(request));
        assert(c.term_log.contains_key(request.term));
        lemma_kept_through_install(c, node, request, t, n);
        if !agree(c.term_log[request.term], old_log, n) {
            assert(request.term != t);
            assert(d.term_log.contains_key(request.term));
            assert(d.lost_to(t, n, m.term() as int));
        }
    }
}

/// The node of an event that is no request of a leader keeps what it stood
/// for before.
proof fn lemma_kept_own_other(c: ClusterModel, step: Step, t: u64, n: int)
    requires
        c.full_inv(),
        c.enabled(step),
        !(step is AppendEntries),
        !(step is InstallSnapshot),
        c.covers(step.node(), t, n),
        !c.lost_to(t, n, c.nodes[step.node()].term() as int),
    ensures
        c.step(step).kept(step.node(), t, n),
{
    let d = c.step(step);
    let i = step.node();
    let nb = c.nodes[i];
    let m = c.node_after(step);
    lemma_inv_step(c, step);
    lemma_node_effect(c, step);
    lemma_term_logs_grow(c, step);
    assert(d.nodes.contains_key(i));
    assert(d.nodes[i] == m);
    assert(d.full[i] == c.full_after(step));
    assert(c.term_log.contains_key(t));
    assert(c.kept(i, t, n));
    let old_log = c.term_log[t];
    let held = c.full[i];
    assert(agree(old_log, d.term_log[t], old_log.len() as int));
    assert(agree(held, old_log, n));
    lemma_log_effect(c, step);
    if c.full_after(step) != held {
        assert(agree(c.full_after(step), held, held.len() as int));
    }
}

/// What a node stood for before an event, it keeps through the event.
pub proof fn lemma_kept_stays(c: ClusterModel, step: Step, v: NodeId, t: u64, n: int)
    requires
        c.full_inv(),
        c.enabled(step),
        c.covers(v, t, n),
    ensures
        c.step(step).nodes.contains_key(v),
        c.step(step).nodes[v].term() >= t,
        c.step(step).term_log.contains_key(t),
        n <= c.step(step).term_log[t].len(),
        c.step(step).kept(v, t, n),
{
    let d = c.step(step);
    let i = step.node();
    lemma_inv_step(c, step);
    lemma_node_effect(c, step);
    lemma_term_logs_grow(c, step);
    assert(d.nodes.contains_key(i));
    assert(d.nodes[i] == c.node_after(step));
    assert(c.nodes.contains_key(v));
    assert(c.term_log.contains_key(t));
    assert(c.kept(v, t, n));
    let old_log = c.term_log[t];
    assert(agree(old_log, d.term_log[t], old_log.len() as int));
    if c.lost_to(t, n, c.nodes[v].term() as int) {
        lemma_lost_stays(c, step, t, n, c.nodes[v].term() as int);
        let x = choose|x: u64|
            t < x <= c.nodes[v].term() && #[trigger] d.term_log.contains_key(x) && !agree(
                d.term_log[x],
                d.term_log[t],
                n,
            );
        assert(d.term_log.contains_key(x));
        assert(d.lost_to(t, n, d.nodes[v].term() as int));
    } else if v != i {
        assert(d.full[v] == c.full[v]);
        assert(agree(d.full[v], d.term_log[t], n));
    } else {
        match step {
            Step::AppendEntries { node, request } => {
                lemma_kept_own_merge(c, node, request, t, n);
            },
            Step::InstallSnapshot { node, request } => {
                lemma_kept_own_install(c, node, request, t, n);
            },
            _ => {
                lemma_kept_own_other(c, step, t, n);
            },
        }
    }
}

/// An event keeps it that nodes keep what they stand for.
pub proof fn lemma_covered_kept_step(c: ClusterModel, step: Step)
    requires
        c.full_inv(),
        c.enabled(step),
    ensures
        c.step(step).covered_kept(),
{
    let d = c.step(step);
    let i = step.node();
    let m = c.node_after(step);
    lemma_inv_step(c, step);
    lemma_term_logs_grow(c, step);
    lemma_vouch_effect(c, step);
    lemma_node_effect(c, step);
    assert(d.nodes.contains_key(i));
    assert(d.nodes[i] == m);
    assert(d.full[i] == c.full_after(step));
    assert forall|v: NodeId, t: u64, n: int| #[trigger] d.covers(v, t, n) implies {
        &&& d.nodes.contains_key(v)
        &&& d.nodes[v].term() >= t
        &&& d.term_log.contains_key(t)
        &&& n <= d.term_log[t].len()
        &&& d.kept(v, t, n)
    } by {
        lemma_covers_after(c, step, v, t, n);
        if c.covers(v, t, n) {
            lemma_kept_stays(c, step, v, t, n);
        } else if v == i && m.role == Role::Leader && m.term() == t && n <= c.full_after(step).len() {
            assert(d.term_log[t] == c.full_after(step));
        } else {
            assert(v == i);
            assert(m.role == Role::Follower);
            assert(d.term_log == c.term_log);
            assert(c.term_log.contains_key(t));
            assert(agree(d.full[i], d.term_log[t], n));
        }
    }
}

/// What a leader knows of a peer's log after an event, it knew before, or
/// the answer that reached it in the event told it.
pub proof fn lemma_match_effect(c: ClusterModel, step: Step)
    requires
        c.nodes_plain(),
        c.enabled(step),
    ensures
        ({
            let n = c.nodes[step.node()];
            let m = c.node_after(step);
            forall|v: NodeId|
                m.role == Role::Leader && #[trigger] m.match_index.contains_key(v)
                    && m.match_index[v] >= 1 ==> {
                    ||| n.role == Role::Leader && n.term() == m.term() && n.match_index.contains_key(
                        v,
                    ) && n.match_index[v] == m.match_index[v]
                    ||| step matches Step::AppendResult { answer, .. } && answer.from == v
                        && answer.result == (AppendResult {
                        term: m.term(),
                        outcome: AppendOutcome::Appended { match_index: m.match_index[v] },
                    })
                }
        }),
{
    let n = c.nodes[step.node()];
    assert(node_plain(n, step.node(), c.config, c.full[step.node()]));
    lemma_linked(n.log, c.full[step.node()]);
    lemma_whole_linked(c.full[step.node()]);
    match step {
        Step::Timeout { .. } => {},
        Step::RequestVote { .. } => {},
        Step::VoteResult { .. } => {},
        Step::Propose { .. } => {},
        Step::Replicate { .. } => {},
        Step::AppendEntries { .. } => {},
        Step::AppendResult { .. } => {},
        Step::Apply { .. } => {},
        Step::Restart { .. } => {},
        Step::Compact { .. } => {},
        Step::InstallSnapshot { .. } => {},
    }
}

/// An event keeps it that the logs of voters on record held what the
/// voters stood for.
pub proof fn lemma_votes_keep_step(c: ClusterModel, step: Step)
    requires
        c.full_inv(),
        c.enabled(step),
    ensures
        c.step(step).votes_keep(),
{
    let d = c.step(step);
    let i = step.node();
    let nb = c.nodes[i];
    let m = c.node_after(step);
    lemma_inv_step(c, step);
    lemma_record_step(c, step);
    lemma_node_effect(c, step);
    lemma_vote_effect(c, step);
    lemma_term_logs_grow(c, step);
    lemma_vouch_effect(c, step);
    assert(d.nodes.contains_key(i));
    assert(d.nodes[i] == m);
    assert forall|j: NodeId| d.nodes.contains_key(j) implies c.nodes.contains_key(j) && (j != i
        ==> d.nodes[j] == c.nodes[j]) by {}
    let early = c.early_vote(step);
    assert forall|t2: u64, v: NodeId, t: u64, n: int|
        #[trigger] d.vote_log.contains_key((t2, v)) && t < t2 && #[trigger] d.covers(
            v,
            t,
            n,
        ) implies agree(d.vote_log[(t2, v)], d.term_log[t], n) || d.lost_to(t, n, t2 - 1) by {
        lemma_covers_after(c, step, v, t, n);
        let is_new = early == Some(t2) && v == i;
        if !is_new {
            assert(c.vote_log.contains_key((t2, v)));
            assert(c.nodes[v].term() >= t2);
        }
        assert(d.nodes[v].term() >= t2);
        assert(c.covers(v, t, n));
        assert(c.term_log.contains_key(t));
        let old_log = c.term_log[t];
        assert(agree(old_log, d.term_log[t], old_log.len() as int));
        if is_new {
            assert(d.vote_log[(t2, v)] == c.full[i]);
            assert(!c.term_log.contains_key(t2));
            assert(nb.term() <= t2);
            assert(c.kept(v, t, n));
            if c.lost_to(t, n, nb.term() as int) {
                let x = choose|x: u64|
                    t < x <= nb.term() && #[trigger] c.term_log.contains_key(x) && !agree(
                        c.term_log[x],
                        c.term_log[t],
                        n,
                    );
                assert(c.term_log.contains_key(x));
                assert(c.lost_to(t, n, t2 - 1));
                lemma_lost_stays(c, step, t, n, t2 - 1);
            } else {
                assert(agree(c.full[i], old_log, n));
            }
        } else {
            assert(d.vote_log[(t2, v)] == c.vote_log[(t2, v)]);
            if c.lost_to(t, n, t2 - 1) {
                lemma_lost_stays(c, step, t, n, t2 - 1);
            } else {
                assert(agree(c.vote_log[(t2, v)], old_log, n));
            }
        }
    }
}

/// An event keeps it that what a leader knows of a peer's log, the peer has
/// answered.
pub proof fn lemma_matches_answered_step(c: ClusterModel, step: Step)
    requires
        c.full_inv(),
        c.enabled(step),
    ensures
        c.step(step).matches_answered(),
{
    let d = c.step(step);
    let i = step.node();
    let nb = c.nodes[i];
    let m = c.node_after(step);
    lemma_match_effect(c, step);
    assert(d.nodes.contains_key(i));
    assert(d.nodes[i] == m);
    assert forall|l: NodeId, v: NodeId|
        d.nodes.contains_key(l) && d.nodes[l].role == Role::Leader
            && #[trigger] d.nodes[l].match_index.contains_key(v) && d.nodes[l].match_index[v]
            >= 1 implies d.answered(v, d.nodes[l].term(), d.nodes[l].match_index[v]) by {
        if l != i {
            assert(c.nodes.contains_key(l));
            assert(d.nodes[l] == c.nodes[l]);
            assert(c.answered(v, c.nodes[l].term(), c.nodes[l].match_index[v]));
        } else if nb.role == Role::Leader && nb.term() == m.term() && nb.match_index.contains_key(v)
            && nb.match_index[v] == m.match_index[v] {
            assert(c.answered(v, nb.term(), nb.match_index[v]));
        } else {
            match step {
                Step::AppendResult { answer, .. } => {
                    assert(c.append_results.contains(answer));
                    assert(answer =~= AppendAnswer {
                        from: v,
                        result: AppendResult {
                            term: m.term(),
                            outcome: AppendOutcome::Appended { match_index: m.match_index[v] },
                        },
                    });
                },
                _ => {},
            }
        }
    }
}

/// An event keeps what holds of what nodes stand for.
pub proof fn lemma_cover_step(c: ClusterModel, step: Step)
    requires
        c.full_inv(),
        c.enabled(step),
    ensures
        c.step(step).cover_inv(),
{
    lemma_covered_kept_step(c, step);
    lemma_votes_keep_step(c, step);
    lemma_matches_answered_step(c, step);
}

impl ClusterModel {
    /// Whether the first `upto` entries of `log` are committed: they are
    /// the first entries of the log of a term of at most `term`, of which
    /// at least that many are committed.
    pub open spec fn backed(self, log: Seq<EntryModel>, upto: int, term: u64) -> bool {
        upto >= 1 ==> exists|t: u64, n: int|
            t <= term && n >= upto && #[trigger] self.committed(t, n) && agree(
                log,
                self.term_log[t],
                upto,
            )
    }

    /// What a node takes to be committed is committed, and in its log.
    pub open spec fn commits_backed(self) -> bool {
        forall|i: NodeId| #[trigger]
            self.nodes.contains_key(i) ==> self.backed(
                self.full[i],
                self.nodes[i].commit_index as int,
                self.nodes[i].term(),
            )
    }

    /// What a leader tells its followers to be committed is committed.
    pub open spec fn append_commits_backed(self) -> bool {
        forall|m: AppendMsg| #[trigger]
            self.appends.contains(m) ==> self.backed(
                self.term_log[m.term],
                m.leader_commit as int,
                m.term,
            )
    }

    /// Whether the entry at the index is committed.
    pub open spec fn chosen(self, index: int, entry: EntryModel) -> bool {
        index >= 1 && exists|t: u64, n: int|
            n >= index && #[trigger] self.committed(t, n) && self.term_log[t][index - 1] == entry
    }

    /// Every entry that was applied was committed.
    pub open spec fn applied_chosen(self) -> bool {
        forall|a: (NodeId, int, EntryModel)| #[trigger]
            self.applied.contains(a) ==> self.chosen(a.1, a.2)
    }

    /// The state that applying the first `upto` entries of a whole log makes
    /// of the state that every node starts with.
    pub open spec fn replay(self, full: Seq<EntryModel>, upto: int) -> StateModel {
        apply_upto(StateModel::initial(self.config), whole(full), upto).0
    }

    /// The state of each node is what applying the entries of its whole log
    /// up to the last applied one makes of the state that every node starts
    /// with, and its image, if it has one, is what applying them up to the
    /// base of its log makes of that state.
    pub open spec fn states_replayed(self) -> bool {
        forall|i: NodeId| #[trigger]
            self.nodes.contains_key(i) ==> self.nodes[i].state == self.replay(
                self.full[i],
                self.nodes[i].state.last_applied as int,
            ) && (self.nodes[i].snapshot matches Some(image) ==> image == self.replay(
                self.full[i],
                self.nodes[i].log.base_index as int,
            ))
    }

    /// Every request to install an image carries the image of entries that
    /// are committed: the state that applying them makes of the state that
    /// every node starts with.
    pub open spec fn snapshots_backed(self) -> bool {
        forall|s: SnapshotMsg| #[trigger]
            self.snapshots.contains(s) ==> s.image == self.replay(s.prefix, s.prefix.len() as int)
                && self.backed(s.prefix, s.prefix.len() as int, s.term)
    }

    /// What holds of commitment in every cluster that can be reached.
    pub open spec fn commit_inv(self) -> bool {
        &&& self.commits_backed()
        &&& self.append_commits_backed()
        &&& self.applied_chosen()
        &&& self.states_replayed()
        &&& self.snapshots_backed()
    }

    /// Everything that holds in every cluster that can be reached.
    pub open spec fn full_inv(self) -> bool {
        &&& self.inv()
        &&& self.record_inv()
        &&& self.cover_inv()
        &&& self.commit_inv()
    }
}

/// What is committed stays committed.
pub proof fn lemma_committed_stays(c: ClusterModel, step: Step, t: u64, n: int)
    requires
        c.inv(),
        c.enabled(step),
        c.committed(t, n),
    ensures
        c.step(step).committed(t, n),
        agree(c.term_log[t], c.step(step).term_log[t], c.term_log[t].len() as int),
{
    let d = c.step(step);
    lemma_term_logs_grow(c, step);
    let before = Set::new(|v: NodeId| c.covers(v, t, n));
    let after = Set::new(|v: NodeId| d.covers(v, t, n));
    assert forall|v: NodeId| before.contains(v) implies after.contains(v) by {
        if c.term_log.contains_key(t) && c.winner[t] == v && n <= c.term_log[t].len() {
        } else {
            let matched = choose|matched: u64| matched >= n && #[trigger] c.answered(v, t, matched);
            assert(d.answered(v, t, matched));
        }
    }
    lemma_quorum_grows(c.config, before, after);
}

/// What is backed stays backed, for any log that keeps the entries.
pub proof fn lemma_backed_stays(
    c: ClusterModel,
    step: Step,
    log: Seq<EntryModel>,
    new_log: Seq<EntryModel>,
    upto: int,
    term: u64,
    new_term: u64,
)
    requires
        c.inv(),
        c.enabled(step),
        c.backed(log, upto, term),
        agree(new_log, log, upto),
        term <= new_term,
    ensures
        c.step(step).backed(new_log, upto, new_term),
{
    let d = c.step(step);
    if upto >= 1 {
        let (t, n) = choose|t: u64, n: int|
            t <= term && n >= upto && #[trigger] c.committed(t, n) && agree(
                log,
                c.term_log[t],
                upto,
            );
        lemma_committed_stays(c, step, t, n);
        assert(d.committed(t, n));
        assert(agree(new_log, d.term_log[t], upto));
    }
}

/// What an event does to the commit index of its node: nothing; or a
/// leader moves it to an entry of its term that a quorum holds; or a
/// follower moves it within the entries of a request that it accepted, as
/// far as the leader has committed; or a node that starts again goes back
/// to what its image includes; or a node that takes an image moves it to
/// the end of the image.
pub open spec fn commit_effect(c: ClusterModel, step: Step) -> bool {
    let n = c.nodes[step.node()];
    let m = c.node_after(step);
    ||| m.commit_index == n.commit_index
    ||| {
        &&& m.role == Role::Leader
        &&& 1 <= m.commit_index <= c.full_after(step).len()
        &&& c.full_after(step)[m.commit_index - 1].term == m.term()
        &&& c.config.is_quorum(m.acks(m.commit_index as int))
    }
    ||| step matches Step::AppendEntries { node, request } && c.append_answer(
        node,
        request,
    ).outcome is Appended && n.commit_index < m.commit_index
    ||| step is Restart && m.commit_index <= n.commit_index
    ||| step matches Step::InstallSnapshot { node, request } && c.installs(node, request)
        && m.commit_index == request.image.last_applied
}

/// A leader that has just moved its commit index moved it to an entry of
/// its term in its whole log.
proof fn lemma_leader_commit(c: ClusterModel, step: Step, x: NodeModel)
    requires
        c.inv(),
        c.enabled(step),
        c.node_after(step) == x.advance_commit(),
        x.log.wf(),
        x.commit_index == c.nodes[step.node()].commit_index,
        !(step is InstallSnapshot),
    ensures
        commit_effect(c, step),
{
    let i = step.node();
    let n = c.nodes[i];
    let m = c.node_after(step);
    let fa = c.full_after(step);
    lemma_advance_commit(x);
    if m.commit_index != n.commit_index {
        assert(node_plain(n, i, c.config, c.full[i]));
        lemma_log_effect(c, step);
        lemma_linked(m.log, fa);
        lemma_nodes_plain_step(c, step);
        assert(c.step(step).nodes.contains_key(i));
        assert(c.step(step).nodes[i] == m);
        assert(node_plain(m, i, c.config, c.step(step).full[i]));
        assert(m.log.has(m.commit_index as int));
        assert(m.acks(m.commit_index as int) =~= x.acks(m.commit_index as int));
    }
}

/// `commit_effect` holds of a node that stands for election or counts a
/// vote.
proof fn lemma_commit_effect_election(c: ClusterModel, step: Step)
    requires
        c.inv(),
        c.enabled(step),
        step is Timeout || step is VoteResult,
    ensures
        commit_effect(c, step),
{
    let i = step.node();
    let n = c.nodes[i];
    let m = c.node_after(step);
    assert(node_plain(n, i, c.config, c.full[i]));
    lemma_linked(n.log, c.full[i]);
    match step {
        Step::Timeout { .. } => {
            if n.can_stand() && n.log.last_index() < u64::MAX && m.role == Role::Leader {
                let x = n.standing().counted(n.id).as_leader().appended(PayloadModel::NoOp);
                lemma_leader_commit(c, step, x);
            }
        },
        Step::VoteResult { vote, .. } => {
            if n.log.last_index() < u64::MAX && m.role == Role::Leader && n.role != Role::Leader {
                let x = n.counted(vote.from).as_leader().appended(PayloadModel::NoOp);
                lemma_leader_commit(c, step, x);
            }
        },
        _ => {},
    }
}

/// `commit_effect` holds of a node that takes a proposal or an answer to a
/// request to append entries.
proof fn lemma_commit_effect_leader(c: ClusterModel, step: Step)
    requires
        c.inv(),
        c.enabled(step),
        step is Propose || step is AppendResult,
    ensures
        commit_effect(c, step),
{
    let i = step.node();
    let n = c.nodes[i];
    let m = c.node_after(step);
    assert(node_plain(n, i, c.config, c.full[i]));
    lemma_linked(n.log, c.full[i]);
    match step {
        Step::Propose { payload, .. } => {
            if n.log.last_index() < u64::MAX && n.role == Role::Leader {
                lemma_leader_commit(c, step, n.appended(payload));
            }
        },
        Step::AppendResult { answer, .. } => {
            match answer.result.outcome {
                AppendOutcome::Appended { match_index } => {
                    if m != n && m.role == Role::Leader {
                        lemma_leader_commit(c, step, n.matched(answer.from, match_index));
                    }
                },
                _ => {},
            }
        },
        _ => {},
    }
}

/// `commit_effect` holds of a node that a request of a leader reaches.
proof fn lemma_commit_effect_follower(c: ClusterModel, step: Step)
    requires
        c.inv(),
        c.enabled(step),
        step is AppendEntries || step is InstallSnapshot,
    ensures
        commit_effect(c, step),
{
    let i = step.node();
    let n = c.nodes[i];
    assert(node_plain(n, i, c.config, c.full[i]));
    lemma_linked(n.log, c.full[i]);
    match step {
        Step::AppendEntries { node, request } => {
            if !(c.append_answer(node, request).outcome is Appended) {
                lemma_refuse_effect(c, node, request);
            } else {
                lemma_accept_effect(c, node, request);
            }
        },
        _ => {},
    }
}

/// `commit_effect` holds of a node that is asked for a vote, sends to a
/// peer, applies what it has committed, starts again or compacts its log.
proof fn lemma_commit_effect_quiet(c: ClusterModel, step: Step)
    requires
        c.inv(),
        c.enabled(step),
        step is RequestVote || step is Replicate || step is Apply || step is Restart
            || step is Compact,
    ensures
        commit_effect(c, step),
{
    let i = step.node();
    let n = c.nodes[i];
    assert(node_plain(n, i, c.config, c.full[i]));
    lemma_linked(n.log, c.full[i]);
}

/// What an event does to the commit index of its node is as
/// `commit_effect` says.
pub proof fn lemma_commit_effect(c: ClusterModel, step: Step)
    requires
        c.inv(),
        c.enabled(step),
    ensures
        commit_effect(c, step),
{
    match step {
        Step::Timeout { .. } => lemma_commit_effect_election(c, step),
        Step::VoteResult { .. } => lemma_commit_effect_election(c, step),
        Step::Propose { .. } => lemma_commit_effect_leader(c, step),
        Step::AppendResult { .. } => lemma_commit_effect_leader(c, step),
        Step::AppendEntries { .. } => lemma_commit_effect_follower(c, step),
        Step::InstallSnapshot { .. } => lemma_commit_effect_follower(c, step),
        Step::RequestVote { .. } => lemma_commit_effect_quiet(c, step),
        Step::Replicate { .. } => lemma_commit_effect_quiet(c, step),
        Step::Apply { .. } => lemma_commit_effect_quiet(c, step),
        Step::Restart { .. } => lemma_commit_effect_quiet(c, step),
        Step::Compact { .. } => lemma_commit_effect_quiet(c, step),
    }
}

/// No event takes from the log of its node what the node took to be
/// committed.
pub proof fn lemma_log_keeps_committed(c: ClusterModel, step: Step)
    requires
        c.full_inv(),
        c.enabled(step),
    ensures
        agree(
            c.full_after(step),
            c.full[step.node()],
            c.nodes[step.node()].commit_index as int,
        ),
{
    lemma_log_effect(c, step);
    match step {
        Step::InstallSnapshot { node, request } => {
            if c.installs(node, request) && !c.keeps_log(node, request) {
                let n = c.nodes[node];
                assert(c.snapshots.contains(request));
                assert(c.backed(c.full[node], n.commit_index as int, n.term()));
                assert(c.backed(request.prefix, request.prefix.len() as int, request.term));
                assert(image_of(request, c.term_log[request.term], c.config));
                lemma_backed_agree(
                    c,
                    request.prefix,
                    request.prefix.len() as int,
                    request.term,
                    c.full[node],
                    n.commit_index as int,
                    n.term(),
                    n.commit_index as int,
                );
            }
        },
        _ => {},
    }
}

/// A node whose commit index an event leaves alone still holds what it
/// takes to be committed.
pub proof fn lemma_commit_kept(c: ClusterModel, step: Step)
    requires
        c.full_inv(),
        c.enabled(step),
        c.node_after(step).commit_index == c.nodes[step.node()].commit_index,
    ensures
        c.step(step).backed(
            c.full_after(step),
            c.node_after(step).commit_index as int,
            c.node_after(step).term(),
        ),
        c.node_after(step).commit_index <= c.full_after(step).len(),
{
    let i = step.node();
    let nb = c.nodes[i];
    let m = c.node_after(step);
    lemma_node_effect(c, step);
    lemma_log_effect(c, step);
    lemma_log_keeps_committed(c, step);
    assert(c.backed(c.full[i], nb.commit_index as int, nb.term()));
    lemma_backed_stays(
        c,
        step,
        c.full[i],
        c.full_after(step),
        nb.commit_index as int,
        nb.term(),
        m.term(),
    );
}

/// What a leader commits in an event is committed: the voters that it
/// knows to hold the entry stand for it.
pub proof fn lemma_commit_by_leader(c: ClusterModel, step: Step)
    requires
        c.full_inv(),
        c.enabled(step),
        c.step(step).inv(),
        c.step(step).matches_answered(),
        c.node_after(step).role == Role::Leader,
        1 <= c.node_after(step).commit_index <= c.full_after(step).len(),
        c.full_after(step)[c.node_after(step).commit_index - 1].term == c.node_after(
            step,
        ).term(),
        c.config.is_quorum(c.node_after(step).acks(c.node_after(step).commit_index as int)),
    ensures
        c.step(step).backed(
            c.full_after(step),
            c.node_after(step).commit_index as int,
            c.node_after(step).term(),
        ),
{
    let d = c.step(step);
    let i = step.node();
    let m = c.node_after(step);
    let t = m.term();
    let r = m.commit_index as int;
    assert(d.nodes.contains_key(i));
    assert(d.nodes[i] == m);
    assert(node_plain(d.nodes[i], i, d.config, d.full[i]));
    assert(d.term_log[t] == c.full_after(step));
    assert(d.winner[t] == i);
    let acks = m.acks(r);
    let coverers = Set::new(|v: NodeId| d.covers(v, t, r));
    assert forall|v: NodeId| acks.contains(v) implies coverers.contains(v) by {
        if v != i {
            assert(m.match_of(v) >= r);
            assert(m.match_index.contains_key(v));
            assert(d.answered(v, t, m.match_index[v]));
        }
    }
    lemma_quorum_grows(c.config, acks, coverers);
    assert(d.committed(t, r));
    assert(agree(c.full_after(step), d.term_log[t], r));
}

/// What a follower commits on the word of its leader is committed.
pub proof fn lemma_commit_by_follower(c: ClusterModel, node: NodeId, request: AppendMsg)
    requires
        c.full_inv(),
        c.enabled(Step::AppendEntries { node, request }),
        c.append_answer(node, request).outcome is Appended,
        c.nodes[node].commit_index < c.node_after(Step::AppendEntries { node, request }).commit_index,
    ensures
        ({
            let step = Step::AppendEntries { node, request };
            &&& c.step(step).backed(
                c.full_after(step),
                c.node_after(step).commit_index as int,
                c.node_after(step).term(),
            )
            &&& c.node_after(step).commit_index <= c.full_after(step).len()
        }),
{
    let step = Step::AppendEntries { node, request };
    let d = c.step(step);
    let nb = c.nodes[node];
    let m = c.node_after(step);
    lemma_answer_effect(c, step);
    assert(node_plain(nb, node, c.config, c.full[node]));
    lemma_linked(nb.log, c.full[node]);
    lemma_whole_linked(c.full[node]);
    assert(c.appends.contains(request));
    let lead = c.term_log[request.term];
    assert(c.backed(lead, request.leader_commit as int, request.term));
    assert(agree(c.full_after(step), lead, m.commit_index as int));
    // What the leader committed, cut down to what the node holds.
    let (t, n) = choose|t: u64, n: int|
        t <= request.term && n >= request.leader_commit && #[trigger] c.committed(t, n) && agree(
            lead,
            c.term_log[t],
            request.leader_commit as int,
        );
    lemma_committed_stays(c, step, t, n);
    assert(agree(c.full_after(step), d.term_log[t], m.commit_index as int)) by {
        assert forall|j: int| 0 <= j < m.commit_index implies c.full_after(step)[j]
            == d.term_log[t][j] by {
            assert(c.full_after(step)[j] == lead[j]);
            assert(lead[j] == c.term_log[t][j]);
        }
    }
    assert(d.committed(t, n));
}

/// What is backed up to an index is backed up to every index before it.
pub proof fn lemma_backed_lower(
    c: ClusterModel,
    log: Seq<EntryModel>,
    upto: int,
    lower: int,
    term: u64,
)
    requires
        c.backed(log, upto, term),
        lower <= upto,
    ensures
        c.backed(log, lower, term),
{
    if lower >= 1 {
        let (t, n) = choose|t: u64, n: int|
            t <= term && n >= upto && #[trigger] c.committed(t, n) && agree(
                log,
                c.term_log[t],
                upto,
            );
        assert(c.committed(t, n));
        assert(agree(log, c.term_log[t], lower));
    }
}

/// An event keeps it that what a node takes to be committed is committed.
pub proof fn lemma_commits_backed_step(c: ClusterModel, step: Step)
    requires
        c.full_inv(),
        c.enabled(step),
        c.step(step).cover_inv(),
    ensures
        c.step(step).commits_backed(),
{
    let d = c.step(step);
    let i = step.node();
    let nb = c.nodes[i];
    let m = c.node_after(step);
    lemma_inv_step(c, step);
    lemma_commit_effect(c, step);
    assert(d.nodes.contains_key(i));
    assert(d.nodes[i] == m);
    assert(d.full[i] == c.full_after(step));
    assert(c.backed(c.full[i], nb.commit_index as int, nb.term()));
    assert(d.backed(c.full_after(step), m.commit_index as int, m.term())) by {
        if m.commit_index == nb.commit_index {
            lemma_commit_kept(c, step);
        } else if m.role == Role::Leader && 1 <= m.commit_index && c.config.is_quorum(
            m.acks(m.commit_index as int),
        ) && c.full_after(step)[m.commit_index - 1].term == m.term() {
            lemma_log_effect(c, step);
            lemma_commit_by_leader(c, step);
        } else {
            match step {
                Step::AppendEntries { node, request } => {
                    lemma_commit_by_follower(c, node, request);
                },
                Step::InstallSnapshot { node, request } => {
                    lemma_install_effect(c, node, request);
                    assert(c.snapshots.contains(request));
                    assert(c.backed(request.prefix, request.prefix.len() as int, request.term));
                    lemma_backed_stays(
                        c,
                        step,
                        request.prefix,
                        c.full_after(step),
                        request.prefix.len() as int,
                        request.term,
                        m.term(),
                    );
                },
                _ => {
                    lemma_node_effect(c, step);
                    lemma_log_effect(c, step);
                    lemma_backed_lower(
                        c,
                        c.full[i],
                        nb.commit_index as int,
                        m.commit_index as int,
                        nb.term(),
                    );
                    lemma_backed_stays(
                        c,
                        step,
                        c.full[i],
                        c.full_after(step),
                        m.commit_index as int,
                        nb.term(),
                        m.term(),
                    );
                },
            }
        }
    }
    assert forall|j: NodeId| #[trigger] d.nodes.contains_key(j) implies d.backed(
        d.full[j],
        d.nodes[j].commit_index as int,
        d.nodes[j].term(),
    ) by {
        if j != i {
            assert(c.nodes.contains_key(j));
            assert(d.nodes[j] == c.nodes[j]);
            assert(d.full[j] == c.full[j]);
            lemma_backed_stays(
                c,
                step,
                c.full[j],
                c.full[j],
                c.nodes[j].commit_index as int,
                c.nodes[j].term(),
                c.nodes[j].term(),
            );
        }
    }
}

/// The state and the image of an event's node after the event are what its
/// whole log makes of the state that every node starts with.
pub open spec fn state_replayed(c: ClusterModel, step: Step) -> bool {
    let m = c.node_after(step);
    &&& m.state == c.replay(c.full_after(step), m.state.last_applied as int)
    &&& m.snapshot matches Some(image) ==> image == c.replay(
        c.full_after(step),
        m.log.base_index as int,
    )
}

/// Whole logs that agree up to an index make the same state up to it.
pub proof fn lemma_replay_agree(
    c: ClusterModel,
    a: Seq<EntryModel>,
    b: Seq<EntryModel>,
    upto: int,
)
    requires
        agree(a, b, upto),
    ensures
        c.replay(a, upto) == c.replay(b, upto),
{
    assert forall|j: int| 0 < j <= upto implies #[trigger] whole(a).at(j) == whole(b).at(j) by {
        assert(a[j - 1] == b[j - 1]);
    }
    lemma_apply_same_entries(StateModel::initial(c.config), whole(a), whole(b), upto);
}

/// `state_replayed` holds of a node whose state machine and image the event
/// leaves alone.
proof fn lemma_state_replayed_same(c: ClusterModel, step: Step)
    requires
        c.full_inv(),
        c.enabled(step),
        c.node_after(step).state == c.nodes[step.node()].state,
        c.node_after(step).snapshot == c.nodes[step.node()].snapshot,
        c.node_after(step).log.base_index == c.nodes[step.node()].log.base_index,
    ensures
        state_replayed(c, step),
{
    let i = step.node();
    let nb = c.nodes[i];
    let fb = c.full[i];
    let fa = c.full_after(step);
    assert(node_plain(nb, i, c.config, fb));
    lemma_log_keeps_committed(c, step);
    assert(agree(fa, fb, nb.state.last_applied as int));
    assert(agree(fa, fb, nb.log.base_index as int));
    lemma_replay_agree(c, fa, fb, nb.state.last_applied as int);
    lemma_replay_agree(c, fa, fb, nb.log.base_index as int);
}

/// A state that a whole log makes up to the last applied entry, taken on to
/// a later index through the end of the log that the node holds, is the
/// state that the whole log makes up to that index.
pub proof fn lemma_replay_on(
    c: ClusterModel,
    state: StateModel,
    log: LogModel,
    full: Seq<EntryModel>,
    upto: int,
)
    requires
        linked(log, full),
        plain(full),
        log.base_index <= state.last_applied <= upto <= full.len(),
        state == c.replay(full, state.last_applied as int),
    ensures
        apply_upto(state, log, upto).0 == c.replay(full, upto),
        apply_upto(state, log, upto).0.last_applied == upto,
{
    let start = StateModel::initial(c.config);
    let applied = state.last_applied as int;
    lemma_linked(log, full);
    lemma_whole_linked(full);
    assert forall|j: int| applied < j <= upto implies #[trigger] log.at(j) == whole(full).at(
        j,
    ) by {
        assert(log.has(j));
    }
    lemma_apply_same_entries(state, log, whole(full), upto);
    lemma_apply_in_steps(start, whole(full), applied, upto);
    lemma_apply_in_order(state, whole(full), upto);
}

/// `state_replayed` holds of a node that applies what it has committed.
proof fn lemma_state_replayed_apply(c: ClusterModel, step: Step)
    requires
        c.full_inv(),
        c.enabled(step),
        step is Apply,
    ensures
        state_replayed(c, step),
{
    let i = step.node();
    let nb = c.nodes[i];
    let m = c.node_after(step);
    let fb = c.full[i];
    assert(node_plain(nb, i, c.config, fb));
    assert(nb.state == c.replay(fb, nb.state.last_applied as int));
    lemma_state_effect(c, step);
    lemma_log_effect(c, step);
    lemma_whole_log_stays(c, step);
    lemma_replay_on(c, nb.state, nb.log, fb, nb.commit_index as int);
}

/// `state_replayed` holds of a node that starts again.
proof fn lemma_state_replayed_restart(c: ClusterModel, step: Step)
    requires
        c.full_inv(),
        c.enabled(step),
        step is Restart,
    ensures
        state_replayed(c, step),
{
    let i = step.node();
    let nb = c.nodes[i];
    let m = c.node_after(step);
    let fb = c.full[i];
    lemma_log_effect(c, step);
    lemma_state_effect(c, step);
    lemma_whole_log_stays(c, step);
    assert(node_plain(nb, i, c.config, fb));
    match nb.snapshot {
        Some(image) => {
            assert(m.state == image);
        },
        None => {
            assert(m.state == StateModel::initial(c.config));
        },
    }
}

/// `state_replayed` holds of a node that compacts its log.
proof fn lemma_state_replayed_compact(c: ClusterModel, step: Step)
    requires
        c.full_inv(),
        c.enabled(step),
        step is Compact,
    ensures
        state_replayed(c, step),
{
    let i = step.node();
    let nb = c.nodes[i];
    let m = c.node_after(step);
    let fb = c.full[i];
    assert(node_plain(nb, i, c.config, fb));
    assert(nb.state == c.replay(fb, nb.state.last_applied as int));
    assert(nb.snapshot matches Some(image) ==> image == c.replay(fb, nb.log.base_index as int));
    assert(m == nb.compact());
    lemma_whole_log_stays(c, step);
    lemma_linked(nb.log, fb);
    assert(m.state == nb.state);
    if nb.log.base_index < nb.state.last_applied < u64::MAX {
        assert(m.snapshot == Some(nb.state));
        assert(m.log == nb.log.purge_before(nb.state.last_applied + 1));
        assert(m.log.base_index == nb.state.last_applied);
    } else {
        assert(m == nb);
    }
}

/// `state_replayed` holds of a node that a request to install an image
/// reaches.
proof fn lemma_state_replayed_install(c: ClusterModel, node: NodeId, request: SnapshotMsg)
    requires
        c.full_inv(),
        c.enabled(Step::InstallSnapshot { node, request }),
    ensures
        state_replayed(c, Step::InstallSnapshot { node, request }),
{
    let step = Step::InstallSnapshot { node, request };
    let nb = c.nodes[node];
    let m = c.node_after(step);
    let fb = c.full[node];
    let fa = c.full_after(step);
    lemma_install_effect(c, node, request);
    assert(node_plain(nb, node, c.config, fb));
    assert(c.snapshots.contains(request));
    if c.installs(node, request) {
        let last = request.prefix.len() as int;
        assert(request.image == c.replay(request.prefix, last));
        lemma_replay_agree(c, fa, request.prefix, last);
    } else {
        assert(fa == fb);
    }
}

/// An event keeps the state and the image of its node what its whole log
/// makes of the state that every node starts with.
pub proof fn lemma_state_replayed(c: ClusterModel, step: Step)
    requires
        c.full_inv(),
        c.enabled(step),
    ensures
        state_replayed(c, step),
{
    match step {
        Step::Apply { .. } => lemma_state_replayed_apply(c, step),
        Step::Restart { .. } => lemma_state_replayed_restart(c, step),
        Step::Compact { .. } => lemma_state_replayed_compact(c, step),
        Step::InstallSnapshot { node, request } => lemma_state_replayed_install(c, node, request),
        _ => {
            lemma_state_effect(c, step);
            lemma_log_effect(c, step);
            lemma_state_replayed_same(c, step);
        },
    }
}

/// An event keeps the state of each node what its whole log makes of the
/// state that every node starts with.
pub proof fn lemma_states_replayed_step(c: ClusterModel, step: Step)
    requires
        c.full_inv(),
        c.enabled(step),
        c.step(step).nodes_plain(),
    ensures
        c.step(step).states_replayed(),
{
    let d = c.step(step);
    let i = step.node();
    let m = c.node_after(step);
    lemma_state_replayed(c, step);
    assert(d.nodes.contains_key(i));
    assert(d.nodes[i] == m);
    assert(d.full[i] == c.full_after(step));
    assert forall|j: NodeId| #[trigger] d.nodes.contains_key(j) implies d.nodes[j].state
        == d.replay(d.full[j], d.nodes[j].state.last_applied as int) && (
    d.nodes[j].snapshot matches Some(image) ==> image == d.replay(
        d.full[j],
        d.nodes[j].log.base_index as int,
    )) by {
        if j != i {
            assert(c.nodes.contains_key(j));
            assert(d.nodes[j] == c.nodes[j]);
            assert(d.full[j] == c.full[j]);
        }
    }
}

/// What a request that was under way says to be committed is committed after
/// an event too.
proof fn lemma_append_commit_old(c: ClusterModel, step: Step, a: AppendMsg)
    requires
        c.full_inv(),
        c.enabled(step),
        c.appends.contains(a),
    ensures
        c.step(step).backed(c.step(step).term_log[a.term], a.leader_commit as int, a.term),
{
    let d = c.step(step);
    lemma_inv_step(c, step);
    lemma_term_logs_grow(c, step);
    assert(c.term_log.contains_key(a.term));
    let old_log = c.term_log[a.term];
    assert(c.backed(old_log, a.leader_commit as int, a.term));
    if a.leader_commit >= 1 {
        assert(agree(d.term_log[a.term], old_log, a.leader_commit as int));
    }
    lemma_backed_stays(
        c,
        step,
        old_log,
        d.term_log[a.term],
        a.leader_commit as int,
        a.term,
        a.term,
    );
}

/// What a request that a leader sends says to be committed is committed.
proof fn lemma_append_commit_new(c: ClusterModel, node: NodeId, peer: NodeId, a: AppendMsg)
    requires
        c.full_inv(),
        c.enabled(Step::Replicate { node, peer }),
        c.step(Step::Replicate { node, peer }).appends.contains(a),
        !c.appends.contains(a),
    ensures
        c.step(Step::Replicate { node, peer }).backed(
            c.step(Step::Replicate { node, peer }).term_log[a.term],
            a.leader_commit as int,
            a.term,
        ),
{
    let step = Step::Replicate { node, peer };
    let d = c.step(step);
    let nb = c.nodes[node];
    lemma_term_logs_grow(c, step);
    assert(node_plain(nb, node, c.config, c.full[node]));
    assert(c.backed(c.full[node], nb.commit_index as int, nb.term()));
    lemma_replicate_window(nb, c.full[node], peer);
    assert(nb.role == Role::Leader);
    assert(c.term_log[nb.term()] == c.full[node]);
    assert(d.term_log[nb.term()] == c.full[node]);
    assert(a.leader_commit == nb.commit_index);
    assert(a.term == nb.term());
    lemma_backed_stays(
        c,
        step,
        c.full[node],
        c.full[node],
        nb.commit_index as int,
        nb.term(),
        nb.term(),
    );
}

/// An event keeps it that what a leader tells its followers to be committed
/// is committed.
pub proof fn lemma_append_commits_step(c: ClusterModel, step: Step)
    requires
        c.full_inv(),
        c.enabled(step),
    ensures
        c.step(step).append_commits_backed(),
{
    let d = c.step(step);
    assert forall|a: AppendMsg| #[trigger] d.appends.contains(a) implies d.backed(
        d.term_log[a.term],
        a.leader_commit as int,
        a.term,
    ) by {
        if c.appends.contains(a) {
            lemma_append_commit_old(c, step, a);
        } else {
            match step {
                Step::Replicate { node, peer } => {
                    lemma_append_commit_new(c, node, peer, a);
                },
                _ => {},
            }
        }
    }
}

/// An entry that was committed is committed after an event too.
pub proof fn lemma_chosen_stays(c: ClusterModel, step: Step, index: int, entry: EntryModel)
    requires
        c.full_inv(),
        c.enabled(step),
        c.chosen(index, entry),
    ensures
        c.step(step).chosen(index, entry),
{
    let d = c.step(step);
    lemma_term_logs_grow(c, step);
    let (t, n) = choose|t: u64, n: int|
        n >= index && #[trigger] c.committed(t, n) && c.term_log[t][index - 1] == entry;
    lemma_committed_stays(c, step, t, n);
    assert(d.committed(t, n));
    assert(d.term_log[t][index - 1] == entry);
}

/// The entries of a log whose entries up to an index are committed are
/// committed, each at its index.
pub proof fn lemma_backed_chosen(
    c: ClusterModel,
    log: Seq<EntryModel>,
    upto: int,
    term: u64,
    index: int,
)
    requires
        c.backed(log, upto, term),
        1 <= index <= upto,
    ensures
        c.chosen(index, log[index - 1]),
{
    let (t, n) = choose|t: u64, n: int|
        t <= term && n >= upto && #[trigger] c.committed(t, n) && agree(log, c.term_log[t], upto);
    assert(c.committed(t, n));
    assert(log[index - 1] == c.term_log[t][index - 1]);
}

/// An entry that an event has its node apply is committed.
proof fn lemma_applied_new(c: ClusterModel, step: Step, a: (NodeId, int, EntryModel))
    requires
        c.full_inv(),
        c.enabled(step),
        c.step(step).applied.contains(a),
        !c.applied.contains(a),
    ensures
        c.chosen(a.1, a.2),
{
    let i = step.node();
    let nb = c.nodes[i];
    assert(node_plain(nb, i, c.config, c.full[i]));
    match step {
        Step::Apply { node } => {
            lemma_linked(nb.log, c.full[i]);
            assert(c.backed(c.full[i], nb.commit_index as int, nb.term()));
            assert(nb.state.last_applied < a.1 <= nb.commit_index && a.2 == nb.log.at(a.1));
            assert(nb.log.has(a.1));
            lemma_backed_chosen(c, c.full[i], nb.commit_index as int, nb.term(), a.1);
        },
        Step::InstallSnapshot { node, request } => {
            assert(c.snapshots.contains(request));
            assert(image_of(request, c.term_log[request.term], c.config));
            let last = request.prefix.len() as int;
            assert(c.backed(request.prefix, last, request.term));
            assert(nb.state.last_applied < a.1 <= last && a.2 == request.prefix[a.1 - 1]);
            lemma_backed_chosen(c, request.prefix, last, request.term, a.1);
        },
        _ => {},
    }
}

/// An event keeps it that every entry that was applied was committed.
pub proof fn lemma_applied_step(c: ClusterModel, step: Step)
    requires
        c.full_inv(),
        c.enabled(step),
    ensures
        c.step(step).applied_chosen(),
{
    let d = c.step(step);
    assert forall|a: (NodeId, int, EntryModel)| #[trigger] d.applied.contains(a) implies d.chosen(
        a.1,
        a.2,
    ) by {
        if !c.applied.contains(a) {
            lemma_applied_new(c, step, a);
        }
        assert(c.chosen(a.1, a.2));
        lemma_chosen_stays(c, step, a.1, a.2);
    }
}

/// An event keeps it that every request to install an image carries the
/// image of entries that are committed.
pub proof fn lemma_snapshots_backed_step(c: ClusterModel, step: Step)
    requires
        c.full_inv(),
        c.enabled(step),
    ensures
        c.step(step).snapshots_backed(),
{
    let d = c.step(step);
    let i = step.node();
    let nb = c.nodes[i];
    assert(node_plain(nb, i, c.config, c.full[i]));
    lemma_linked(nb.log, c.full[i]);
    assert forall|s: SnapshotMsg| #[trigger] d.snapshots.contains(s) implies s.image == d.replay(
        s.prefix,
        s.prefix.len() as int,
    ) && d.backed(s.prefix, s.prefix.len() as int, s.term) by {
        if c.snapshots.contains(s) {
            assert(c.backed(s.prefix, s.prefix.len() as int, s.term));
            lemma_backed_stays(
                c,
                step,
                s.prefix,
                s.prefix,
                s.prefix.len() as int,
                s.term,
                s.term,
            );
        } else {
            match step {
                Step::Replicate { node, peer } => {
                    let base = nb.log.base_index as int;
                    assert(nb.replicate(peer) is Some);
                    assert(nb.role == Role::Leader);
                    assert(s.prefix == c.full[i].take(base));
                    assert(s.term == nb.term());
                    assert(nb.snapshot == Some(s.image));
                    assert(s.image == c.replay(c.full[i], base));
                    lemma_replay_agree(c, s.prefix, c.full[i], base);
                    assert(c.backed(c.full[i], nb.commit_index as int, nb.term()));
                    lemma_backed_lower(c, c.full[i], nb.commit_index as int, base, nb.term());
                    lemma_backed_stays(c, step, c.full[i], s.prefix, base, nb.term(), nb.term());
                },
                _ => {},
            }
        }
    }
}

/// An event keeps what holds of commitment.
pub proof fn lemma_commit_step(c: ClusterModel, step: Step)
    requires
        c.full_inv(),
        c.enabled(step),
        c.step(step).cover_inv(),
    ensures
        c.step(step).commit_inv(),
{
    lemma_inv_step(c, step);
    lemma_commits_backed_step(c, step);
    lemma_states_replayed_step(c, step);
    lemma_append_commits_step(c, step);
    lemma_applied_step(c, step);
    lemma_snapshots_backed_step(c, step);
}

/// A cluster that has just started is as `full_inv` says.
pub proof fn lemma_full_inv_init(c: ClusterModel)
    requires
        c.init(),
    ensures
        c.full_inv(),
{
    lemma_inv_init(c);
    assert forall|i: NodeId| #[trigger] c.nodes.contains_key(i) implies c.nodes[i]
        == NodeModel::initial(i, c.config) by {}
    assert forall|v: NodeId, t: u64, n: int| !c.covers(v, t, n) by {
        if c.covers(v, t, n) {
            let matched = choose|matched: u64| matched >= n && #[trigger] c.answered(v, t, matched);
            assert(false);
        }
    }
}

/// An event that can happen keeps a cluster as `full_inv` says.
pub proof fn lemma_full_inv_step(c: ClusterModel, step: Step)
    requires
        c.full_inv(),
        c.enabled(step),
    ensures
        c.step(step).full_inv(),
{
    lemma_inv_step(c, step);
    lemma_record_step(c, step);
    lemma_cover_step(c, step);
    lemma_commit_step(c, step);
}

/// Every cluster that is reached from a start by events that can happen
/// is as `full_inv` says.
pub proof fn lemma_full_inv_run(c: ClusterModel, steps: Seq<Step>)
    requires
        c.init(),
        can_run(c, steps),
    ensures
        run(c, steps).full_inv(),
    decreases steps.len(),
{
    if steps.len() == 0 {
        lemma_full_inv_init(c);
    } else {
        lemma_full_inv_run(c, steps.drop_last());
        lemma_full_inv_step(run(c, steps.drop_last()), steps.last());
    }
}

/// The logs of two terms in which entries were committed agree on what was
/// committed in both.
pub proof fn lemma_committed_agree(c: ClusterModel, t: u64, n: int, t2: u64, n2: int, j: int)
    requires
        c.full_inv(),
        c.committed(t, n),
        c.committed(t2, n2),
        1 <= j <= n,
        j <= n2,
    ensures
        c.term_log[t][j - 1] == c.term_log[t2][j - 1],
{
    if t < t2 {
        lemma_later_terms_hold(c, t, n, t2);
    } else if t2 < t {
        lemma_later_terms_hold(c, t2, n2, t);
    }
}

/// Leader completeness: in a cluster with a fixed membership, however
/// events follow each other, the entries that are committed in a term are
/// in the whole log of every leader of a later term, at their indexes: the
/// leader holds each of them in its log unless it has compacted it away.
pub proof fn lemma_leader_completeness(
    c: ClusterModel,
    steps: Seq<Step>,
    term: u64,
    n: int,
    leader: NodeId,
    index: int,
)
    requires
        c.init(),
        can_run(c, steps),
        run(c, steps).committed(term, n),
        run(c, steps).nodes.contains_key(leader),
        run(c, steps).nodes[leader].role == Role::Leader,
        run(c, steps).nodes[leader].term() > term,
        1 <= index <= n,
    ensures
        index <= run(c, steps).full[leader].len(),
        run(c, steps).full[leader][index - 1] == run(c, steps).term_log[term][index - 1],
        index > run(c, steps).nodes[leader].log.base_index ==> run(c, steps).nodes[leader].log.has(
            index,
        ) && run(c, steps).nodes[leader].log.at(index) == run(c, steps).term_log[term][index - 1],
{
    let d = run(c, steps);
    lemma_full_inv_run(c, steps);
    let l = d.nodes[leader];
    assert(node_plain(l, leader, d.config, d.full[leader]));
    lemma_linked(l.log, d.full[leader]);
    assert(d.term_log[l.term()] == d.full[leader]);
    lemma_later_terms_hold(d, term, n, l.term());
    assert(d.full[leader][index - 1] == d.term_log[term][index - 1]);
}

/// What a node takes to be committed is committed: in a cluster with a
/// fixed membership, however events follow each other, the whole log of a
/// node up to its commit index is the start of the log of a term in which
/// at least that much is committed.
pub proof fn lemma_commit_index_committed(c: ClusterModel, steps: Seq<Step>, node: NodeId)
    requires
        c.init(),
        can_run(c, steps),
        run(c, steps).nodes.contains_key(node),
        run(c, steps).nodes[node].commit_index >= 1,
    ensures
        exists|t: u64, n: int|
            t <= run(c, steps).nodes[node].term() && n >= run(c, steps).nodes[node].commit_index
                && #[trigger] run(c, steps).committed(t, n) && agree(
                run(c, steps).full[node],
                run(c, steps).term_log[t],
                run(c, steps).nodes[node].commit_index as int,
            ),
{
    let d = run(c, steps);
    lemma_full_inv_run(c, steps);
    assert(d.backed(d.full[node], d.nodes[node].commit_index as int, d.nodes[node].term()));
}

/// In a cluster as `full_inv` says, every entry that a node takes to be
/// committed is in the whole log of every leader whose term is not behind
/// that node's.
pub proof fn lemma_leader_holds(d: ClusterModel, node: NodeId, leader: NodeId, index: int)
    requires
        d.full_inv(),
        d.nodes.contains_key(node),
        d.nodes.contains_key(leader),
        1 <= index <= d.nodes[node].commit_index,
        d.nodes[leader].role == Role::Leader,
        d.nodes[leader].term() >= d.nodes[node].term(),
    ensures
        index <= d.full[node].len(),
        index <= d.full[leader].len(),
        d.full[leader][index - 1] == d.full[node][index - 1],
{
    let a = d.nodes[node];
    let l = d.nodes[leader];
    let fa = d.full[node];
    let fl = d.full[leader];
    assert(d.backed(fa, a.commit_index as int, a.term()));
    let (t, n) = choose|t: u64, n: int|
        t <= a.term() && n >= a.commit_index && #[trigger] d.committed(t, n) && agree(
            fa,
            d.term_log[t],
            a.commit_index as int,
        );
    assert(d.term_log.contains_key(l.term()));
    assert(d.term_log[l.term()] == fl);
    if t < l.term() {
        lemma_later_terms_hold(d, t, n, l.term());
    }
    assert(agree(fl, d.term_log[t], n));
    assert(fa[index - 1] == d.term_log[t][index - 1]);
    assert(fl[index - 1] == d.term_log[t][index - 1]);
}

/// Leader completeness, of the nodes as they are: in a cluster with a fixed
/// membership, however events follow each other, every entry that a node
/// takes to be committed and holds in its log is in the log of every leader
/// whose term is not behind that node's, unless the leader has compacted
/// it away.
pub proof fn lemma_leaders_hold_committed(
    c: ClusterModel,
    steps: Seq<Step>,
    node: NodeId,
    leader: NodeId,
    index: int,
)
    requires
        c.init(),
        can_run(c, steps),
        run(c, steps).nodes.contains_key(node),
        run(c, steps).nodes.contains_key(leader),
        1 <= index <= run(c, steps).nodes[node].commit_index,
        run(c, steps).nodes[leader].role == Role::Leader,
        run(c, steps).nodes[leader].term() >= run(c, steps).nodes[node].term(),
        run(c, steps).nodes[node].log.has(index),
        index > run(c, steps).nodes[leader].log.base_index,
    ensures
        run(c, steps).nodes[leader].log.has(index),
        run(c, steps).nodes[leader].log.at(index) == run(c, steps).nodes[node].log.at(index),
{
    let d = run(c, steps);
    lemma_full_inv_run(c, steps);
    lemma_leader_holds(d, node, leader, index);
    assert(node_plain(d.nodes[node], node, d.config, d.full[node]));
    assert(node_plain(d.nodes[leader], leader, d.config, d.full[leader]));
    lemma_linked(d.nodes[node].log, d.full[node]);
    lemma_linked(d.nodes[leader].log, d.full[leader]);
}

/// In a cluster as `full_inv` says, the whole logs of two nodes hold the
/// same entry at every index that both take to be committed.
pub proof fn lemma_committed_agree_at(d: ClusterModel, a: NodeId, b: NodeId, index: int)
    requires
        d.full_inv(),
        d.nodes.contains_key(a),
        d.nodes.contains_key(b),
        1 <= index <= d.nodes[a].commit_index,
        index <= d.nodes[b].commit_index,
    ensures
        index <= d.full[a].len(),
        index <= d.full[b].len(),
        d.full[a][index - 1] == d.full[b][index - 1],
{
    let x = d.nodes[a];
    let y = d.nodes[b];
    let fx = d.full[a];
    let fy = d.full[b];
    assert(d.backed(fx, x.commit_index as int, x.term()));
    assert(d.backed(fy, y.commit_index as int, y.term()));
    let (t, n) = choose|t: u64, n: int|
        t <= x.term() && n >= x.commit_index && #[trigger] d.committed(t, n) && agree(
            fx,
            d.term_log[t],
            x.commit_index as int,
        );
    let (t2, n2) = choose|t2: u64, n2: int|
        t2 <= y.term() && n2 >= y.commit_index && #[trigger] d.committed(t2, n2) && agree(
            fy,
            d.term_log[t2],
            y.commit_index as int,
        );
    lemma_committed_agree(d, t, n, t2, n2, index);
    assert(fx[index - 1] == d.term_log[t][index - 1]);
    assert(fy[index - 1] == d.term_log[t2][index - 1]);
}

/// In a cluster with a fixed membership, however events follow each other,
/// two nodes hold the same entry at every index that both take to be
/// committed and both hold an entry at.
pub proof fn lemma_committed_entries_agree(
    c: ClusterModel,
    steps: Seq<Step>,
    a: NodeId,
    b: NodeId,
    index: int,
)
    requires
        c.init(),
        can_run(c, steps),
        run(c, steps).nodes.contains_key(a),
        run(c, steps).nodes.contains_key(b),
        1 <= index <= run(c, steps).nodes[a].commit_index,
        index <= run(c, steps).nodes[b].commit_index,
        run(c, steps).nodes[a].log.has(index),
        run(c, steps).nodes[b].log.has(index),
    ensures
        run(c, steps).nodes[a].log.at(index) == run(c, steps).nodes[b].log.at(index),
{
    let d = run(c, steps);
    lemma_full_inv_run(c, steps);
    lemma_committed_agree_at(d, a, b, index);
    assert(node_plain(d.nodes[a], a, d.config, d.full[a]));
    assert(node_plain(d.nodes[b], b, d.config, d.full[b]));
    lemma_linked(d.nodes[a].log, d.full[a]);
    lemma_linked(d.nodes[b].log, d.full[b]);
}

/// State machine safety: in a cluster with a fixed membership, however
/// events follow each other, if a node has ever applied an entry at an
/// index, no node has ever applied another entry at that index.
pub proof fn lemma_state_machine_safety(
    c: ClusterModel,
    steps: Seq<Step>,
    a: NodeId,
    b: NodeId,
    index: int,
    x: EntryModel,
    y: EntryModel,
)
    requires
        c.init(),
        can_run(c, steps),
        run(c, steps).applied.contains((a, index, x)),
        run(c, steps).applied.contains((b, index, y)),
    ensures
        x == y,
{
    let d = run(c, steps);
    lemma_full_inv_run(c, steps);
    assert(d.chosen(index, x));
    assert(d.chosen(index, y));
    let (t, n) = choose|t: u64, n: int|
        n >= index && #[trigger] d.committed(t, n) && d.term_log[t][index - 1] == x;
    let (t2, n2) = choose|t2: u64, n2: int|
        n2 >= index && #[trigger] d.committed(t2, n2) && d.term_log[t2][index - 1] == y;
    lemma_committed_agree(d, t, n, t2, n2, index);
}

/// In a cluster as `full_inv` says, two nodes that have applied their logs
/// up to the same index hold the same state.
pub proof fn lemma_states_agree_at(d: ClusterModel, a: NodeId, b: NodeId)
    requires
        d.full_inv(),
        d.nodes.contains_key(a),
        d.nodes.contains_key(b),
        d.nodes[a].state.last_applied == d.nodes[b].state.last_applied,
    ensures
        d.nodes[a].state == d.nodes[b].state,
{
    let x = d.nodes[a];
    let y = d.nodes[b];
    let applied = x.state.last_applied as int;
    assert(node_plain(x, a, d.config, d.full[a]));
    assert(node_plain(y, b, d.config, d.full[b]));
    assert(x.state == d.replay(d.full[a], applied));
    assert(y.state == d.replay(d.full[b], applied));
    assert forall|j: int| 0 < j <= applied implies #[trigger] whole(d.full[a]).at(j) == whole(
        d.full[b],
    ).at(j) by {
        lemma_committed_agree_at(d, a, b, j);
    }
    lemma_apply_same_entries(
        StateModel::initial(d.config),
        whole(d.full[a]),
        whole(d.full[b]),
        applied,
    );
}

/// State machine safety, of the states as they are: in a cluster with a
/// fixed membership, however events follow each other, two nodes that have
/// applied their logs up to the same index hold the same state.
pub proof fn lemma_states_agree(c: ClusterModel, steps: Seq<Step>, a: NodeId, b: NodeId)
    requires
        c.init(),
        can_run(c, steps),
        run(c, steps).nodes.contains_key(a),
        run(c, steps).nodes.contains_key(b),
        run(c, steps).nodes[a].state.last_applied == run(c, steps).nodes[b].state.last_applied,
    ensures
        run(c, steps).nodes[a].state == run(c, steps).nodes[b].state,
{
    lemma_full_inv_run(c, steps);
    lemma_states_agree_at(run(c, steps), a, b);
}

} // verus!
