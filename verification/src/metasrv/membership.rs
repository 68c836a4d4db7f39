//! Who votes: the membership of the cluster, what counts as a quorum of it,
//! and the two steps by which a node is added to it or removed from it.

use vstd::prelude::*;

verus! {

/// The id of a node, unique in the cluster and stable for the node's lifetime.
pub type NodeId = u64;

/// A copy of a sequence of node ids.
pub fn clone_ids(v: &Vec<NodeId>) -> (r: Vec<NodeId>)
    ensures
        r@ == v@,
{
    let r = v.clone();
    assert(r@ =~= v@);
    r
}

/// Whether a list of node ids holds an id.
pub fn contains_id(v: &Vec<NodeId>, id: NodeId) -> (b: bool)
    ensures
        b == v@.contains(id),
{
    let mut i: usize = 0;
    while i < v.len()
        invariant
            0 <= i <= v.len(),
            forall|j: int| 0 <= j < i ==> v@[j] != id,
        decreases v.len() - i,
    {
        if v[i] == id {
            return true;
        }
        i += 1;
    }
    false
}

/// The members of the cluster: the voters, and during a change of
/// membership the voters that the change brings as well.
#[derive(Debug, PartialEq, Eq)]
pub struct Membership {
    members: Vec<NodeId>,
    members_after_change: Option<Vec<NodeId>>,
}

/// What a `Membership` holds.
#[verifier::ext_equal]
pub struct MembershipModel {
    pub members: Seq<NodeId>,
    pub members_after_change: Option<Seq<NodeId>>,
}

impl View for Membership {
    type V = MembershipModel;

    closed spec fn view(&self) -> MembershipModel {
        MembershipModel {
            members: self.members@,
            members_after_change: match self.members_after_change {
                Some(v) => Some(v@),
                None => None,
            },
        }
    }
}

/// More than half of the members of `group` are in `acks`.
pub open spec fn majority(group: Seq<NodeId>, acks: Set<NodeId>) -> bool {
    2 * group.to_set().intersect(acks).len() > group.to_set().len()
}

impl MembershipModel {
    /// No node is listed twice in either set.
    pub open spec fn wf(self) -> bool {
        &&& self.members.no_duplicates()
        &&& self.members_after_change matches Some(after) ==> after.no_duplicates()
    }

    /// Whether a change of membership is under way.
    pub open spec fn is_joint(self) -> bool {
        self.members_after_change is Some
    }

    /// Whether the node has a vote.
    pub open spec fn is_voter(self, id: NodeId) -> bool {
        self.members.contains(id) || (self.members_after_change matches Some(after)
            && after.contains(id))
    }

    /// The nodes that have a vote.
    pub open spec fn voters(self) -> Set<NodeId> {
        match self.members_after_change {
            Some(after) => self.members.to_set().union(after.to_set()),
            None => self.members.to_set(),
        }
    }

    /// Whether `acks` decides for the cluster: it holds a majority of the
    /// members and, during a change, a majority of the set after the change
    /// as well.
    pub open spec fn is_quorum(self, acks: Set<NodeId>) -> bool {
        &&& majority(self.members, acks)
        &&& self.members_after_change matches Some(after) ==> majority(after, acks)
    }
}


/// The number of members of `group[0..n]` that are in `acks`.
pub open spec fn count_in(group: Seq<NodeId>, acks: Set<NodeId>, n: nat) -> nat
    decreases n,
{
    if n == 0 || n > group.len() {
        0
    } else {
        count_in(group, acks, (n - 1) as nat) + if acks.contains(group[n - 1]) {
            1nat
        } else {
            0nat
        }
    }
}

/// Counting the members of a list without repetitions that are in `acks`
/// gives the size of the list's intersection with `acks`.
pub proof fn lemma_count_in(group: Seq<NodeId>, acks: Set<NodeId>, n: nat)
    requires
        group.no_duplicates(),
        n <= group.len(),
    ensures
        count_in(group, acks, n) == group.subrange(0, n as int).to_set().intersect(acks).len(),
        group.subrange(0, n as int).to_set().finite(),
        group.subrange(0, n as int).to_set().len() == n,
    decreases n,
{
    let prefix = group.subrange(0, n as int);
    vstd::seq_lib::seq_to_set_is_finite(prefix);
    prefix.unique_seq_to_set();
    if n == 0 {
        assert(prefix.to_set() =~= Set::<NodeId>::empty());
        assert(prefix.to_set().intersect(acks) =~= Set::<NodeId>::empty());
    } else {
        lemma_count_in(group, acks, (n - 1) as nat);
        let shorter = group.subrange(0, n - 1);
        let x = group[n - 1];
        vstd::seq_lib::seq_to_set_is_finite(shorter);
        assert(prefix =~= shorter.push(x));
        assert(prefix.to_set() =~= shorter.to_set().insert(x)) by {
            assert forall|y: NodeId| prefix.to_set().contains(y) == shorter.to_set().insert(
                x,
            ).contains(y) by {
                if prefix.contains(y) {
                    let j = choose|j: int| 0 <= j < prefix.len() && prefix[j] == y;
                    if j < n - 1 {
                        assert(shorter[j] == y);
                    }
                }
                if shorter.contains(y) {
                    let j = choose|j: int| 0 <= j < shorter.len() && shorter[j] == y;
                    assert(prefix[j] == y);
                }
                if y == x {
                    assert(prefix[n - 1] == y);
                }
            }
        }
        assert(!shorter.to_set().contains(x)) by {
            if shorter.contains(x) {
                let j = choose|j: int| 0 <= j < shorter.len() && shorter[j] == x;
                assert(group[j] == group[n - 1]);
            }
        }
        if acks.contains(x) {
            assert(prefix.to_set().intersect(acks) =~= shorter.to_set().intersect(acks).insert(x));
        } else {
            assert(prefix.to_set().intersect(acks) =~= shorter.to_set().intersect(acks));
        }
    }
}

/// A set that holds a set with a majority of a group holds a majority of
/// the group.
pub proof fn lemma_majority_grows(group: Seq<NodeId>, a: Set<NodeId>, b: Set<NodeId>)
    requires
        majority(group, a),
        a.subset_of(b),
    ensures
        majority(group, b),
{
    let g = group.to_set();
    vstd::seq_lib::seq_to_set_is_finite(group);
    vstd::set_lib::lemma_len_subset(g.intersect(b), g);
    vstd::set_lib::lemma_len_subset(g.intersect(a), g.intersect(b));
}

/// A set that holds a quorum is a quorum.
pub proof fn lemma_quorum_grows(m: MembershipModel, a: Set<NodeId>, b: Set<NodeId>)
    requires
        m.is_quorum(a),
        a.subset_of(b),
    ensures
        m.is_quorum(b),
{
    lemma_majority_grows(m.members, a, b);
    match m.members_after_change {
        Some(after) => lemma_majority_grows(after, a, b),
        None => {},
    }
}

/// Two sets that each hold a majority of the same group share a member of
/// the group.
pub proof fn lemma_majorities_meet(group: Seq<NodeId>, a: Set<NodeId>, b: Set<NodeId>)
    requires
        majority(group, a),
        majority(group, b),
    ensures
        exists|id: NodeId| group.contains(id) && a.contains(id) && b.contains(id),
{
    let g = group.to_set();
    vstd::seq_lib::seq_to_set_is_finite(group);
    let ga = g.intersect(a);
    let gb = g.intersect(b);
    vstd::set_lib::lemma_len_subset(ga, g);
    vstd::set_lib::lemma_len_subset(gb, g);
    vstd::set_lib::lemma_set_intersect_union_lens(ga, gb);
    vstd::set_lib::lemma_len_subset(ga.union(gb), g);
    assert(ga.intersect(gb).len() > 0);
    let id = ga.intersect(gb).choose();
    assert(ga.intersect(gb).contains(id)) by {
        if ga.intersect(gb).len() != 0 {
            vstd::set_lib::lemma_set_empty_equivalency_len(ga.intersect(gb));
        }
    }
    assert(group.contains(id));
}

/// A majority of a group and a majority of a part of it that lacks at most
/// one of its members share a member of the part.
pub proof fn lemma_near_majorities_meet(
    group: Seq<NodeId>,
    part: Seq<NodeId>,
    a: Set<NodeId>,
    b: Set<NodeId>,
)
    requires
        part.to_set().subset_of(group.to_set()),
        group.to_set().len() <= part.to_set().len() + 1,
        majority(group, a),
        majority(part, b),
    ensures
        exists|id: NodeId| part.contains(id) && a.contains(id) && b.contains(id),
{
    let g = group.to_set();
    let ga = g.intersect(a);
    let pb = part.to_set().intersect(b);
    vstd::seq_lib::seq_to_set_is_finite(group);
    vstd::seq_lib::seq_to_set_is_finite(part);
    vstd::set_lib::lemma_len_subset(ga, g);
    vstd::set_lib::lemma_len_subset(pb, g);
    vstd::set_lib::lemma_set_intersect_union_lens(ga, pb);
    vstd::set_lib::lemma_len_subset(ga.union(pb), g);
    assert(ga.intersect(pb).len() > 0);
    let id = ga.intersect(pb).choose();
    assert(ga.intersect(pb).contains(id)) by {
        if ga.intersect(pb).len() != 0 {
            vstd::set_lib::lemma_set_empty_equivalency_len(ga.intersect(pb));
        }
    }
    assert(part.contains(id));
}

/// Why a change of membership cannot begin.
#[derive(Clone, Copy, Debug, PartialEq, Eq, Structural)]
pub enum ChangeError {
    /// An earlier change has not finished.
    InProgress,
    /// The node to add is a member already.
    AlreadyMember,
    /// The node to remove is no member.
    NotMember,
    /// The node to remove is the only member.
    LastMember,
}

/// The two configurations that a change of membership goes through.
#[derive(Debug)]
pub struct ChangePlan {
    /// The first step: the old members, together with the union of the old
    /// and the new members as the set after the change.
    pub joint: Membership,
    /// The second step: the new members alone.
    pub target: Membership,
}

/// The members with one node added at the end.
pub open spec fn spec_joined(members: Seq<NodeId>, id: NodeId) -> Seq<NodeId> {
    members.push(id)
}

/// The test that every node but one passes.
pub open spec fn other_than(id: NodeId) -> spec_fn(NodeId) -> bool {
    |x: NodeId| x != id
}

/// The members without one node, the others in their order.
pub open spec fn spec_left(members: Seq<NodeId>, id: NodeId) -> Seq<NodeId> {
    members.filter(other_than(id))
}

/// What `plan_join` returns.
pub open spec fn spec_plan_join(m: MembershipModel, id: NodeId) -> Result<
    (MembershipModel, MembershipModel),
    ChangeError,
> {
    if m.is_joint() {
        Err(ChangeError::InProgress)
    } else if m.members.contains(id) {
        Err(ChangeError::AlreadyMember)
    } else {
        Ok(
            (
                MembershipModel {
                    members: m.members,
                    members_after_change: Some(spec_joined(m.members, id)),
                },
                MembershipModel {
                    members: spec_joined(m.members, id),
                    members_after_change: None,
                },
            ),
        )
    }
}

/// What `plan_leave` returns.
pub open spec fn spec_plan_leave(m: MembershipModel, id: NodeId) -> Result<
    (MembershipModel, MembershipModel),
    ChangeError,
> {
    if m.is_joint() {
        Err(ChangeError::InProgress)
    } else if !m.members.contains(id) {
        Err(ChangeError::NotMember)
    } else if m.members.len() == 1 {
        Err(ChangeError::LastMember)
    } else {
        Ok(
            (
                MembershipModel { members: m.members, members_after_change: Some(m.members) },
                MembershipModel {
                    members: spec_left(m.members, id),
                    members_after_change: None,
                },
            ),
        )
    }
}

/// The members without one of them are one fewer, and all of them members.
pub proof fn lemma_left(members: Seq<NodeId>, id: NodeId)
    requires
        members.no_duplicates(),
        members.contains(id),
    ensures
        spec_left(members, id).to_set() == members.to_set().remove(id),
        spec_left(members, id).to_set().len() + 1 == members.to_set().len(),
{
    let keep = other_than(id);
    let rest = spec_left(members, id);
    assert forall|x: NodeId| rest.to_set().contains(x) == members.to_set().remove(id).contains(
        x,
    ) by {
        if rest.contains(x) {
            members.lemma_filter_contains_rev(keep, x);
        }
        if members.contains(x) && x != id {
            let k = choose|k: int| 0 <= k < members.len() && members[k] == x;
            assert(keep(members[k]));
            members.lemma_filter_contains(keep, k);
        }
    }
    assert(rest.to_set() =~= members.to_set().remove(id));
    vstd::seq_lib::seq_to_set_is_finite(members);
}

/// Adding a node to the cluster never parts the quorums: a quorum of the
/// membership before a step of the change and a quorum of the membership
/// after it share a node. The steps are from the members to the joint
/// membership, and from the joint membership to the new members.
pub proof fn lemma_join_keeps_quorums_together(
    m: MembershipModel,
    id: NodeId,
    a: Set<NodeId>,
    b: Set<NodeId>,
)
    requires
        m.wf(),
        spec_plan_join(m, id) is Ok,
    ensures
        ({
            let (joint, target) = spec_plan_join(m, id)->Ok_0;
            &&& m.is_quorum(a) && joint.is_quorum(b) ==> exists|x: NodeId|
                a.contains(x) && b.contains(x) && m.is_voter(x)
            &&& joint.is_quorum(a) && target.is_quorum(b) ==> exists|x: NodeId|
                a.contains(x) && b.contains(x) && target.is_voter(x)
        }),
{
    let (joint, target) = spec_plan_join(m, id)->Ok_0;
    if m.is_quorum(a) && joint.is_quorum(b) {
        lemma_majorities_meet(m.members, a, b);
    }
    if joint.is_quorum(a) && target.is_quorum(b) {
        lemma_majorities_meet(target.members, a, b);
    }
}

/// Removing a node from the cluster never parts the quorums: a quorum of
/// the membership before a step of the change and a quorum of the
/// membership after it share a node. The steps are from the members to the
/// joint membership, and from the joint membership to the new members.
pub proof fn lemma_leave_keeps_quorums_together(
    m: MembershipModel,
    id: NodeId,
    a: Set<NodeId>,
    b: Set<NodeId>,
)
    requires
        m.wf(),
        spec_plan_leave(m, id) is Ok,
    ensures
        ({
            let (joint, target) = spec_plan_leave(m, id)->Ok_0;
            &&& m.is_quorum(a) && joint.is_quorum(b) ==> exists|x: NodeId|
                a.contains(x) && b.contains(x) && m.is_voter(x)
            &&& joint.is_quorum(a) && target.is_quorum(b) ==> exists|x: NodeId|
                a.contains(x) && b.contains(x) && target.is_voter(x)
        }),
{
    let (joint, target) = spec_plan_leave(m, id)->Ok_0;
    if m.is_quorum(a) && joint.is_quorum(b) {
        lemma_majorities_meet(m.members, a, b);
    }
    if joint.is_quorum(a) && target.is_quorum(b) {
        lemma_left(m.members, id);
        lemma_near_majorities_meet(m.members, target.members, a, b);
    }
}

/// Whether a list of node ids names no node twice.
pub fn has_no_duplicates(v: &Vec<NodeId>) -> (b: bool)
    ensures
        b == v@.no_duplicates(),
{
    let mut i: usize = 0;
    while i < v.len()
        invariant
            0 <= i <= v.len(),
            forall|a: int, b: int| 0 <= a < b < i ==> v@[a] != v@[b],
        decreases v.len() - i,
    {
        let mut j: usize = 0;
        while j < i
            invariant
                0 <= j <= i < v.len(),
                forall|a: int| 0 <= a < j ==> v@[a] != v@[i as int],
            decreases i - j,
        {
            if v[j] == v[i] {
                return false;
            }
            j += 1;
        }
        i += 1;
    }
    true
}

/// The number of members of `group` that are in `acks`.
fn count_acks(group: &Vec<NodeId>, acks: &Vec<NodeId>) -> (c: usize)
    ensures
        c == count_in(group@, acks@.to_set(), group@.len()),
        c <= group@.len(),
{
    let mut c: usize = 0;
    let mut i: usize = 0;
    while i < group.len()
        invariant
            0 <= i <= group.len(),
            c <= i,
            c == count_in(group@, acks@.to_set(), i as nat),
        decreases group.len() - i,
    {
        if contains_id(acks, group[i]) {
            c += 1;
        }
        i += 1;
    }
    c
}

/// Whether more than half of `group` is in `acks`.
pub fn has_majority(group: &Vec<NodeId>, acks: &Vec<NodeId>) -> (b: bool)
    requires
        group@.no_duplicates(),
    ensures
        b == majority(group@, acks@.to_set()),
{
    let c = count_acks(group, acks);
    proof {
        lemma_count_in(group@, acks@.to_set(), group@.len());
        assert(group@.subrange(0, group@.len() as int) =~= group@);
    }
    c > group.len() - c
}

impl Membership {
    #[verifier::type_invariant]
    spec fn inv(&self) -> bool {
        self@.wf()
    }

    /// No node is listed twice in either set. This holds of every
    /// `Membership`.
    pub open spec fn wf(&self) -> bool {
        self@.wf()
    }

    /// No node is listed twice in either set.
    pub fn check(&self)
        ensures
            self.wf(),
    {
        proof {
            use_type_invariant(self);
        }
    }

    /// The membership of a cluster that is not changing. `None` if a node
    /// is named twice.
    pub fn new(members: Vec<NodeId>) -> (r: Option<Membership>)
        ensures
            match r {
                Some(m) => members@.no_duplicates() && m.wf() && m@ == (MembershipModel {
                    members: members@,
                    members_after_change: None,
                }),
                None => !members@.no_duplicates(),
            },
    {
        if has_no_duplicates(&members) {
            Some(Membership { members, members_after_change: None })
        } else {
            None
        }
    }

    /// A membership of its two sets, as they come off the wire or the disk.
    /// `None` if either names a node twice.
    pub fn from_parts(members: Vec<NodeId>, members_after_change: Option<Vec<NodeId>>) -> (r: Option<
        Membership,
    >)
        ensures
            match r {
                Some(m) => m.wf() && m@ == (MembershipModel {
                    members: members@,
                    members_after_change: match members_after_change {
                        Some(v) => Some(v@),
                        None => None,
                    },
                }),
                None => !(MembershipModel {
                    members: members@,
                    members_after_change: match members_after_change {
                        Some(v) => Some(v@),
                        None => None,
                    },
                }).wf(),
            },
    {
        if !has_no_duplicates(&members) {
            return None;
        }
        match &members_after_change {
            Some(after) => {
                if !has_no_duplicates(after) {
                    return None;
                }
            },
            None => {},
        }
        Some(Membership { members, members_after_change })
    }

    /// The membership of a cluster of one node.
    pub fn single(id: NodeId) -> (m: Membership)
        ensures
            m.wf(),
            m@ == (MembershipModel { members: seq![id], members_after_change: None }),
    {
        let mut members: Vec<NodeId> = Vec::new();
        members.push(id);
        proof {
            assert(members@ =~= seq![id]);
        }
        Membership { members, members_after_change: None }
    }

    /// A copy of the membership.
    pub fn clone_membership(&self) -> (r: Membership)
        ensures
            r@ == self@,
            r.wf(),
    {
        proof {
            use_type_invariant(self);
        }
        Membership {
            members: clone_ids(&self.members),
            members_after_change: match &self.members_after_change {
                Some(v) => Some(clone_ids(v)),
                None => None,
            },
        }
    }

    /// The members.
    pub fn members(&self) -> (m: &Vec<NodeId>)
        ensures
            m@ == self@.members,
    {
        &self.members
    }

    /// The set after the change, while a change is under way.
    pub fn members_after_change(&self) -> (m: Option<&Vec<NodeId>>)
        ensures
            match m {
                Some(v) => self@.members_after_change == Some(v@),
                None => self@.members_after_change is None,
            },
    {
        match &self.members_after_change {
            Some(v) => Some(v),
            None => None,
        }
    }

    /// Whether a change of membership is under way.
    pub fn is_joint(&self) -> (b: bool)
        ensures
            b == self@.is_joint(),
    {
        self.members_after_change.is_some()
    }

    /// Whether the node has a vote.
    pub fn is_voter(&self, id: NodeId) -> (b: bool)
        ensures
            b == self@.is_voter(id),
    {
        if contains_id(&self.members, id) {
            return true;
        }
        match &self.members_after_change {
            Some(after) => contains_id(after, id),
            None => false,
        }
    }

    /// Whether the nodes in `acks` decide for the cluster.
    pub fn is_quorum(&self, acks: &Vec<NodeId>) -> (b: bool)
        ensures
            b == self@.is_quorum(acks@.to_set()),
    {
        proof {
            use_type_invariant(self);
        }
        if !has_majority(&self.members, acks) {
            return false;
        }
        match &self.members_after_change {
            Some(after) => has_majority(after, acks),
            None => true,
        }
    }

    /// The two steps that add a node to the cluster.
    pub fn plan_join(&self, id: NodeId) -> (r: Result<ChangePlan, ChangeError>)
        ensures
            match r {
                Ok(plan) => plan.joint.wf() && plan.target.wf() && spec_plan_join(self@, id) == Ok::<
                    (MembershipModel, MembershipModel),
                    ChangeError,
                >((plan.joint@, plan.target@)),
                Err(e) => spec_plan_join(self@, id) == Err::<
                    (MembershipModel, MembershipModel),
                    ChangeError,
                >(e),
            },
    {
        proof {
            use_type_invariant(self);
        }
        if self.is_joint() {
            return Err(ChangeError::InProgress);
        }
        if contains_id(&self.members, id) {
            return Err(ChangeError::AlreadyMember);
        }
        let mut grown = clone_ids(&self.members);
        grown.push(id);
        let joint = Membership {
            members: clone_ids(&self.members),
            members_after_change: Some(clone_ids(&grown)),
        };
        let target = Membership { members: grown, members_after_change: None };
        Ok(ChangePlan { joint, target })
    }

    /// The two steps that remove a node from the cluster.
    pub fn plan_leave(&self, id: NodeId) -> (r: Result<ChangePlan, ChangeError>)
        ensures
            match r {
                Ok(plan) => plan.joint.wf() && plan.target.wf() && spec_plan_leave(self@, id) == Ok::<
                    (MembershipModel, MembershipModel),
                    ChangeError,
                >((plan.joint@, plan.target@)),
                Err(e) => spec_plan_leave(self@, id) == Err::<
                    (MembershipModel, MembershipModel),
                    ChangeError,
                >(e),
            },
    {
        proof {
            use_type_invariant(self);
        }
        if self.is_joint() {
            return Err(ChangeError::InProgress);
        }
        if !contains_id(&self.members, id) {
            return Err(ChangeError::NotMember);
        }
        if self.members.len() == 1 {
            return Err(ChangeError::LastMember);
        }
        let mut rest: Vec<NodeId> = Vec::new();
        let mut i: usize = 0;
        let ghost keep = other_than(id);
        proof {
            assert(self.members@.subrange(0, 0) =~= Seq::<NodeId>::empty());
        }
        while i < self.members.len()
            invariant
                0 <= i <= self.members.len(),
                keep == other_than(id),
                rest@ == self.members@.subrange(0, i as int).filter(keep),
            decreases self.members.len() - i,
        {
            proof {
                let prefix = self.members@.subrange(0, i as int);
                let x = self.members@[i as int];
                assert(self.members@.subrange(0, i + 1) =~= prefix.push(x));
                lemma_filter_push(prefix, x, keep);
            }
            if self.members[i] != id {
                rest.push(self.members[i]);
            }
            i += 1;
        }
        proof {
            assert(self.members@.subrange(0, self.members@.len() as int) =~= self.members@);
            lemma_filter_no_duplicates(self.members@, keep);
        }
        let joint = Membership {
            members: clone_ids(&self.members),
            members_after_change: Some(clone_ids(&self.members)),
        };
        let target = Membership { members: rest, members_after_change: None };
        Ok(ChangePlan { joint, target })
    }
}

/// Filtering a list with one more element at its end filters the list and
/// then keeps or drops that element.
pub proof fn lemma_filter_push(s: Seq<NodeId>, x: NodeId, keep: spec_fn(NodeId) -> bool)
    ensures
        s.push(x).filter(keep) == if keep(x) {
            s.filter(keep).push(x)
        } else {
            s.filter(keep)
        },
{
    reveal(Seq::filter);
    assert(s.push(x).drop_last() =~= s);
}

/// Filtering a list without repetitions leaves none.
pub proof fn lemma_filter_no_duplicates(s: Seq<NodeId>, keep: spec_fn(NodeId) -> bool)
    requires
        s.no_duplicates(),
    ensures
        s.filter(keep).no_duplicates(),
    decreases s.len(),
{
    reveal(Seq::filter);
    if s.len() > 0 {
        let shorter = s.drop_last();
        lemma_filter_no_duplicates(shorter, keep);
        if keep(s.last()) {
            let f = shorter.filter(keep);
            assert forall|i: int| 0 <= i < f.len() implies f[i] != s.last() by {
                shorter.lemma_filter_contains_rev(keep, f[i]);
                assert(shorter.contains(f[i]));
                let j = choose|j: int| 0 <= j < shorter.len() && shorter[j] == f[i];
                assert(s[j] == f[i]);
            }
        }
    }
}

} // verus!
