//! The relationship engine: typed, invite-based member groups scoped to a
//! community. A group is created implicitly by the first invite for a type
//! the caller does not already share, grows as invitees accept, and ends
//! automatically once fewer than two active members remain.
//!
//! The engine owns three in-memory tables (groups, memberships, invites).
//! Contracts are stated against a ghost model of those tables, and ambiguity
//! is never resolved by guessing: where a by-type command matches several
//! groups, the caller is asked to pick one by id.

use vstd::prelude::*;

verus! {

/// Whether a relationship group is still alive. A group never reopens once
/// ended.
#[derive(Clone, Copy, Debug, PartialEq, Eq, Structural)]
pub enum RelStatus {
    Active,
    Ended,
}

/// The lifecycle of an invite.
#[derive(Clone, Copy, Debug, PartialEq, Eq, Structural)]
pub enum InviteStatus {
    Pending,
    Accepted,
    Declined,
    Cancelled,
}

/// One relationship group.
#[derive(Clone, Debug)]
pub struct RelationshipRow {
    pub id: i64,
    pub guild_id: u64,
    pub relationship_type: String,
    pub emoji: Option<String>,
    pub description: Option<String>,
    pub status: RelStatus,
    pub created_by: u64,
    pub created_at: i64,
    pub ended_at: Option<i64>,
}

/// One membership row; `left_at` is `None` exactly while the member is
/// active. Re-joining clears `left_at` and refreshes `joined_at` instead of
/// inserting a second row.
#[derive(Clone, Copy, Debug, PartialEq, Eq, Structural)]
pub struct MemberRow {
    pub relationship_id: i64,
    pub user_id: u64,
    pub joined_at: i64,
    pub left_at: Option<i64>,
}

/// One invite row.
#[derive(Clone, Copy, Debug, PartialEq, Eq, Structural)]
pub struct InviteRow {
    pub id: i64,
    pub relationship_id: i64,
    pub inviter_id: u64,
    pub invitee_id: u64,
    pub status: InviteStatus,
    pub created_at: i64,
    pub responded_at: Option<i64>,
}

/// Ghost image of a [`RelationshipRow`], with strings as character
/// sequences.
pub ghost struct RelData {
    pub id: i64,
    pub guild_id: u64,
    pub ty: Seq<char>,
    pub emoji: Option<Seq<char>>,
    pub description: Option<Seq<char>>,
    pub status: RelStatus,
    pub created_by: u64,
    pub created_at: i64,
    pub ended_at: Option<i64>,
}

/// The view of an optional string.
pub open spec fn opt_view(o: Option<String>) -> Option<Seq<char>> {
    match o {
        Some(s) => Some(s@),
        None => None,
    }
}

/// The ghost image of a relationship row.
pub open spec fn rel_view(r: RelationshipRow) -> RelData {
    RelData {
        id: r.id,
        guild_id: r.guild_id,
        ty: r.relationship_type@,
        emoji: opt_view(r.emoji),
        description: opt_view(r.description),
        status: r.status,
        created_by: r.created_by,
        created_at: r.created_at,
        ended_at: r.ended_at,
    }
}

/// Ghost image of the whole store.
pub ghost struct RelModel {
    pub rels: Seq<RelData>,
    pub members: Seq<MemberRow>,
    pub invites: Seq<InviteRow>,
    pub next_relationship_id: i64,
    pub next_invite_id: i64,
}

/// Well-formedness of the model: group and invite ids grow along their
/// tables (so each id appears once and listings in table order are listings
/// in id order), ids stay below the next free id, membership rows are unique
/// per `(group, user)`, and each `(group, invitee)` pair has at most one
/// pending invite.
pub open spec fn model_wf(m: RelModel) -> bool {
    &&& forall|i: int, j: int|
        0 <= i < j < m.rels.len() ==> (#[trigger] m.rels[i]).id < (#[trigger] m.rels[j]).id
    &&& forall|i: int|
        0 <= i < m.rels.len() ==> 1 <= (#[trigger] m.rels[i]).id < m.next_relationship_id
    &&& forall|i: int, j: int|
        0 <= i < j < m.members.len() ==> !((#[trigger] m.members[i]).relationship_id == (
        #[trigger] m.members[j]).relationship_id && m.members[i].user_id == m.members[j].user_id)
    &&& forall|i: int, j: int|
        0 <= i < j < m.invites.len() ==> (#[trigger] m.invites[i]).id < (
        #[trigger] m.invites[j]).id
    &&& forall|i: int|
        0 <= i < m.invites.len() ==> 1 <= (#[trigger] m.invites[i]).id < m.next_invite_id
    &&& forall|i: int, j: int|
        0 <= i < j < m.invites.len() ==> !((#[trigger] m.invites[i]).status
            == InviteStatus::Pending && (#[trigger] m.invites[j]).status == InviteStatus::Pending
            && m.invites[i].relationship_id == m.invites[j].relationship_id
            && m.invites[i].invitee_id == m.invites[j].invitee_id)
    &&& 1 <= m.next_relationship_id
    &&& 1 <= m.next_invite_id
}

/// `user_id` is currently an active member of group `relationship_id`.
pub open spec fn member_active(ms: Seq<MemberRow>, relationship_id: i64, user_id: u64) -> bool {
    exists|i: int|
        0 <= i < ms.len() && (#[trigger] ms[i]).relationship_id == relationship_id
            && ms[i].user_id == user_id && ms[i].left_at is None
}

/// A membership row for `(relationship_id, user_id)` exists, active or not.
pub open spec fn has_member_row(ms: Seq<MemberRow>, relationship_id: i64, user_id: u64) -> bool {
    exists|i: int|
        0 <= i < ms.len() && (#[trigger] ms[i]).relationship_id == relationship_id
            && ms[i].user_id == user_id
}

/// A group with this id exists in this community and is still active.
pub open spec fn rel_active_in_guild(rs: Seq<RelData>, relationship_id: i64, guild_id: u64) -> bool {
    exists|i: int|
        0 <= i < rs.len() && (#[trigger] rs[i]).id == relationship_id && rs[i].guild_id == guild_id
            && rs[i].status == RelStatus::Active
}

/// A group with this id exists in this community, whatever its status.
pub open spec fn rel_in_guild(rs: Seq<RelData>, relationship_id: i64, guild_id: u64) -> bool {
    exists|i: int|
        0 <= i < rs.len() && (#[trigger] rs[i]).id == relationship_id && rs[i].guild_id == guild_id
}

/// A group with this id is still active, in any community.
pub open spec fn rel_active(rs: Seq<RelData>, relationship_id: i64) -> bool {
    exists|i: int|
        0 <= i < rs.len() && (#[trigger] rs[i]).id == relationship_id && rs[i].status
            == RelStatus::Active
}

/// The group may be used by `user_id` for an invite of type `ty`: it is
/// active, of that type, in that community, and the user is an active member.
pub open spec fn rel_eligible(
    m: RelModel,
    relationship_id: i64,
    guild_id: u64,
    ty: Seq<char>,
    user_id: u64,
) -> bool {
    &&& exists|i: int|
        0 <= i < m.rels.len() && (#[trigger] m.rels[i]).id == relationship_id
            && m.rels[i].guild_id == guild_id && m.rels[i].ty == ty && m.rels[i].status
            == RelStatus::Active
    &&& member_active(m.members, relationship_id, user_id)
}

/// A pending invite for `(relationship_id, invitee_id)` exists.
pub open spec fn pending_invite(is: Seq<InviteRow>, relationship_id: i64, invitee_id: u64) -> bool {
    exists|i: int|
        0 <= i < is.len() && (#[trigger] is[i]).relationship_id == relationship_id
            && is[i].invitee_id == invitee_id && is[i].status == InviteStatus::Pending
}

/// How many pending invites `(relationship_id, invitee_id)` has; under
/// [`model_wf`] this is 0 or 1.
pub open spec fn pending_count(is: Seq<InviteRow>, relationship_id: i64, invitee_id: u64) -> int
    decreases is.len(),
{
    if is.len() == 0 {
        0
    } else {
        pending_count(is.drop_last(), relationship_id, invitee_id) + if is.last().relationship_id
            == relationship_id && is.last().invitee_id == invitee_id && is.last().status
            == InviteStatus::Pending {
            1int
        } else {
            0
        }
    }
}

/// How many members of `relationship_id` are currently active.
pub open spec fn active_member_count(ms: Seq<MemberRow>, relationship_id: i64) -> int
    decreases ms.len(),
{
    if ms.len() == 0 {
        0
    } else {
        active_member_count(ms.drop_last(), relationship_id) + if ms.last().relationship_id
            == relationship_id && ms.last().left_at is None {
            1int
        } else {
            0
        }
    }
}

/// Ids of the active groups of type `ty` in `guild_id` that `user_id`
/// belongs to, in table order (under [`model_wf`]: ascending).
pub open spec fn caller_rel_ids(
    rs: Seq<RelData>,
    ms: Seq<MemberRow>,
    guild_id: u64,
    ty: Seq<char>,
    user_id: u64,
) -> Seq<i64>
    decreases rs.len(),
{
    if rs.len() == 0 {
        Seq::empty()
    } else {
        let pre = caller_rel_ids(rs.drop_last(), ms, guild_id, ty, user_id);
        let r = rs.last();
        if r.guild_id == guild_id && r.ty == ty && r.status == RelStatus::Active && member_active(
            ms,
            r.id,
            user_id,
        ) {
            pre.push(r.id)
        } else {
            pre
        }
    }
}

/// Ids of the active groups of type `ty` in `guild_id` that both users
/// belong to, in table order.
pub open spec fn shared_rel_ids(
    rs: Seq<RelData>,
    ms: Seq<MemberRow>,
    guild_id: u64,
    ty: Seq<char>,
    user_a: u64,
    user_b: u64,
) -> Seq<i64>
    decreases rs.len(),
{
    if rs.len() == 0 {
        Seq::empty()
    } else {
        let pre = shared_rel_ids(rs.drop_last(), ms, guild_id, ty, user_a, user_b);
        let r = rs.last();
        if r.guild_id == guild_id && r.ty == ty && r.status == RelStatus::Active && member_active(
            ms,
            r.id,
            user_a,
        ) && member_active(ms, r.id, user_b) {
            pre.push(r.id)
        } else {
            pre
        }
    }
}

/// Which group a `make` command resolved to, and whether it was created for
/// the occasion.
#[derive(Clone, Copy, Debug, PartialEq, Eq, Structural)]
pub struct MakeResolution {
    pub relationship_id: i64,
    pub created_new_group: bool,
}

/// Why a `make` command could not resolve a group. Both cases are ordinary
/// outcomes reported to the caller, not faults.
#[derive(Clone, Debug, PartialEq, Eq)]
pub enum MakeRejection {
    /// The explicit id is not an active group of this type that the caller
    /// belongs to.
    NotEligible,
    /// The caller belongs to several groups of this type; the ids are
    /// reported so the caller can pick one explicitly.
    Ambiguous(Vec<i64>),
}

/// What ending a shared group by type came to.
#[derive(Clone, Debug, PartialEq, Eq)]
pub enum EndOutcome {
    /// No active group of this type holds both users.
    NoneShared,
    /// Several such groups exist; the caller must leave one by id instead.
    Ambiguous(Vec<i64>),
    /// The caller left the single shared group; `ended` reports whether the
    /// group ended as a side effect.
    Left { relationship_id: i64, ended: bool },
}

/// Why an invite was not created.
#[derive(Clone, Copy, Debug, PartialEq, Eq, Structural)]
pub enum InviteRejection {
    /// The invitee is already an active member of the group.
    AlreadyMember,
    /// The invitee already has a pending invite to the group.
    AlreadyPending,
}

/// `ms` with the row for `(relationship_id, user_id)` made active again and
/// its join time refreshed, or a fresh active row appended.
pub open spec fn upsert_member(
    ms: Seq<MemberRow>,
    relationship_id: i64,
    user_id: u64,
    now: i64,
) -> Seq<MemberRow> {
    if has_member_row(ms, relationship_id, user_id) {
        ms.map_values(
            |mr: MemberRow|
                if mr.relationship_id == relationship_id && mr.user_id == user_id {
                    MemberRow { joined_at: now, left_at: None, ..mr }
                } else {
                    mr
                },
        )
    } else {
        ms.push(MemberRow { relationship_id, user_id, joined_at: now, left_at: None })
    }
}

/// `ms` with the active row for `(relationship_id, user_id)`, if any, marked
/// as left at `now`.
pub open spec fn mark_left(
    ms: Seq<MemberRow>,
    relationship_id: i64,
    user_id: u64,
    now: i64,
) -> Seq<MemberRow> {
    ms.map_values(
        |mr: MemberRow|
            if mr.relationship_id == relationship_id && mr.user_id == user_id && mr.left_at
                is None {
                MemberRow { left_at: Some(now), ..mr }
            } else {
                mr
            },
    )
}

/// `rs` with the active group `relationship_id`, if any, ended at `now`.
pub open spec fn end_rel(rs: Seq<RelData>, relationship_id: i64, now: i64) -> Seq<RelData> {
    rs.map_values(
        |r: RelData|
            if r.id == relationship_id && r.status == RelStatus::Active {
                RelData { status: RelStatus::Ended, ended_at: Some(now), ..r }
            } else {
                r
            },
    )
}

/// `is` with every pending invite for `(relationship_id, invitee_id)` flipped
/// to `status` and stamped; under [`model_wf`] at most one row changes.
pub open spec fn mark_pending_invites(
    is: Seq<InviteRow>,
    relationship_id: i64,
    invitee_id: u64,
    status: InviteStatus,
    now: i64,
) -> Seq<InviteRow> {
    is.map_values(
        |inv: InviteRow|
            if inv.relationship_id == relationship_id && inv.invitee_id == invitee_id && inv.status
                == InviteStatus::Pending {
                InviteRow { status, responded_at: Some(now), ..inv }
            } else {
                inv
            },
    )
}

/// A fresh active group under the next free id, with its creator recorded;
/// the new id is returned beside the model.
pub open spec fn create_transition(
    m: RelModel,
    guild_id: u64,
    created_by: u64,
    ty: Seq<char>,
    emoji: Option<Seq<char>>,
    description: Option<Seq<char>>,
    now: i64,
) -> (RelModel, i64) {
    let id = m.next_relationship_id;
    (
        RelModel {
            rels: m.rels.push(
                RelData {
                    id,
                    guild_id,
                    ty,
                    emoji,
                    description,
                    status: RelStatus::Active,
                    created_by,
                    created_at: now,
                    ended_at: None,
                },
            ),
            next_relationship_id: (id + 1) as i64,
            ..m
        },
        id,
    )
}

/// How an invite request changes the model: an invitee who is already an
/// active member, or already has a pending invite, is reported back without
/// any change; otherwise a pending invite is inserted under the next free id.
pub open spec fn invite_transition(
    m: RelModel,
    relationship_id: i64,
    inviter_id: u64,
    invitee_id: u64,
    now: i64,
) -> (RelModel, Option<InviteRejection>) {
    if member_active(m.members, relationship_id, invitee_id) {
        (m, Some(InviteRejection::AlreadyMember))
    } else if pending_invite(m.invites, relationship_id, invitee_id) {
        (m, Some(InviteRejection::AlreadyPending))
    } else {
        (
            RelModel {
                invites: m.invites.push(
                    InviteRow {
                        id: m.next_invite_id,
                        relationship_id,
                        inviter_id,
                        invitee_id,
                        status: InviteStatus::Pending,
                        created_at: now,
                        responded_at: None,
                    },
                ),
                next_invite_id: (m.next_invite_id + 1) as i64,
                ..m
            },
            None::<InviteRejection>,
        )
    }
}

/// How accepting changes the model: the invitee becomes (or becomes again)
/// an active member, and the pending invite is marked accepted.
pub open spec fn accept_transition(
    m: RelModel,
    relationship_id: i64,
    invitee_id: u64,
    now: i64,
) -> RelModel {
    RelModel {
        members: upsert_member(m.members, relationship_id, invitee_id, now),
        invites: mark_pending_invites(
            m.invites,
            relationship_id,
            invitee_id,
            InviteStatus::Accepted,
            now,
        ),
        ..m
    }
}

/// How declining changes the model: where the group belongs to the given
/// community, the pending invite is marked declined; the number of rows that
/// changed comes back beside the model.
pub open spec fn decline_transition(
    m: RelModel,
    relationship_id: i64,
    invitee_id: u64,
    guild_id: u64,
    now: i64,
) -> (RelModel, int) {
    if rel_in_guild(m.rels, relationship_id, guild_id) {
        (
            RelModel {
                invites: mark_pending_invites(
                    m.invites,
                    relationship_id,
                    invitee_id,
                    InviteStatus::Declined,
                    now,
                ),
                ..m
            },
            pending_count(m.invites, relationship_id, invitee_id),
        )
    } else {
        (m, 0)
    }
}

/// How leaving changes the model: an active membership is closed, and once
/// fewer than two active members remain the group itself ends; the boolean
/// reports whether the group ended as a side effect.
pub open spec fn leave_transition(
    m: RelModel,
    relationship_id: i64,
    user_id: u64,
    now: i64,
) -> (RelModel, bool) {
    if !member_active(m.members, relationship_id, user_id) {
        (m, false)
    } else {
        let m1 = RelModel { members: mark_left(m.members, relationship_id, user_id, now), ..m };
        if active_member_count(m1.members, relationship_id) < 2 {
            (
                RelModel { rels: end_rel(m.rels, relationship_id, now), ..m1 },
                rel_active(m.rels, relationship_id),
            )
        } else {
            (m1, false)
        }
    }
}

/// The three in-memory relationship tables plus the next free ids.
pub struct RelationshipStore {
    relationships: Vec<RelationshipRow>,
    members: Vec<MemberRow>,
    invites: Vec<InviteRow>,
    next_relationship_id: i64,
    next_invite_id: i64,
}

impl RelationshipStore {
    /// The ghost image of the store.
    pub closed spec fn model(&self) -> RelModel {
        RelModel {
            rels: self.relationships@.map_values(|r: RelationshipRow| rel_view(r)),
            members: self.members@,
            invites: self.invites@,
            next_relationship_id: self.next_relationship_id,
            next_invite_id: self.next_invite_id,
        }
    }

    pub open spec fn wf(&self) -> bool {
        model_wf(self.model())
    }

    /// An empty store.
    pub fn new() -> (s: Self)
        ensures
            s.model().rels == Seq::<RelData>::empty(),
            s.model().members == Seq::<MemberRow>::empty(),
            s.model().invites == Seq::<InviteRow>::empty(),
            s.model().next_relationship_id == 1,
            s.model().next_invite_id == 1,
            s.wf(),
    {
        let s = RelationshipStore {
            relationships: Vec::new(),
            members: Vec::new(),
            invites: Vec::new(),
            next_relationship_id: 1,
            next_invite_id: 1,
        };
        proof {
            assert(s.model().rels =~= Seq::<RelData>::empty());
        }
        s
    }

    /// Index of the membership row for `(relationship_id, user_id)`, if any.
    fn find_member_idx(&self, relationship_id: i64, user_id: u64) -> (r: Option<usize>)
        ensures
            match r {
                Some(i) => i < self.model().members.len() && self.model().members[i as int]
                    .relationship_id == relationship_id && self.model().members[i as int].user_id
                    == user_id,
                None => !has_member_row(self.model().members, relationship_id, user_id),
            },
    {
        let n = self.members.len();
        let mut i: usize = 0;
        while i < n
            invariant
                n == self.model().members.len(),
                i <= n,
                forall|j: int|
                    0 <= j < i ==> !((#[trigger] self.model().members[j]).relationship_id
                        == relationship_id && self.model().members[j].user_id == user_id),
            decreases n - i,
        {
            let mr = self.members[i];
            if mr.relationship_id == relationship_id && mr.user_id == user_id {
                return Some(i);
            }
            i = i + 1;
        }
        None
    }

    /// Whether `user_id` is an active member of `relationship_id`, with no
    /// community check (membership rows carry no community of their own).
    fn member_active_exec(&self, relationship_id: i64, user_id: u64) -> (r: bool)
        ensures
            r == member_active(self.model().members, relationship_id, user_id),
    {
        let n = self.members.len();
        let mut i: usize = 0;
        while i < n
            invariant
                n == self.model().members.len(),
                i <= n,
                forall|j: int|
                    0 <= j < i ==> !((#[trigger] self.model().members[j]).relationship_id
                        == relationship_id && self.model().members[j].user_id == user_id
                        && self.model().members[j].left_at is None),
            decreases n - i,
        {
            let mr = self.members[i];
            if mr.relationship_id == relationship_id && mr.user_id == user_id
                && mr.left_at.is_none() {
                return true;
            }
            i = i + 1;
        }
        false
    }

    /// Whether the group exists in this community and is still active.
    fn rel_active_in_guild_exec(&self, relationship_id: i64, guild_id: u64) -> (r: bool)
        ensures
            r == rel_active_in_guild(self.model().rels, relationship_id, guild_id),
    {
        let n = self.relationships.len();
        let mut i: usize = 0;
        while i < n
            invariant
                n == self.model().rels.len(),
                i <= n,
                forall|j: int|
                    0 <= j < i ==> !((#[trigger] self.model().rels[j]).id == relationship_id
                        && self.model().rels[j].guild_id == guild_id && self.model().rels[j].status
                        == RelStatus::Active),
            decreases n - i,
        {
            let row = &self.relationships[i];
            if row.id == relationship_id && row.guild_id == guild_id && matches!(
                row.status,
                RelStatus::Active,
            ) {
                assert(self.model().rels[i as int] == rel_view(self.relationships@[i as int]));
                return true;
            }
            i = i + 1;
        }
        false
    }

    /// Whether `user_id` is an active member of an active group
    /// `relationship_id` of this community.
    pub fn is_active_member(&self, relationship_id: i64, guild_id: u64, user_id: u64) -> (r: bool)
        ensures
            r == (rel_active_in_guild(self.model().rels, relationship_id, guild_id)
                && member_active(self.model().members, relationship_id, user_id)),
    {
        self.rel_active_in_guild_exec(relationship_id, guild_id) && self.member_active_exec(
            relationship_id,
            user_id,
        )
    }

    /// Index of the first pending invite for `(relationship_id, invitee_id)`,
    /// if any.
    fn find_pending_invite_idx(&self, relationship_id: i64, invitee_id: u64) -> (r: Option<usize>)
        ensures
            match r {
                Some(i) => i < self.model().invites.len() && self.model().invites[i as int]
                    .relationship_id == relationship_id && self.model().invites[i as int].invitee_id
                    == invitee_id && self.model().invites[i as int].status == InviteStatus::Pending,
                None => !pending_invite(self.model().invites, relationship_id, invitee_id),
            },
    {
        let n = self.invites.len();
        let mut i: usize = 0;
        while i < n
            invariant
                n == self.model().invites.len(),
                i <= n,
                forall|j: int|
                    0 <= j < i ==> !((#[trigger] self.model().invites[j]).relationship_id
                        == relationship_id && self.model().invites[j].invitee_id == invitee_id
                        && self.model().invites[j].status == InviteStatus::Pending),
            decreases n - i,
        {
            let inv = self.invites[i];
            if inv.relationship_id == relationship_id && inv.invitee_id == invitee_id && matches!(
                inv.status,
                InviteStatus::Pending,
            ) {
                return Some(i);
            }
            i = i + 1;
        }
        None
    }

    /// Whether a pending invite for `(relationship_id, invitee_id)` exists on
    /// an active group of this community.
    pub fn has_pending_invite(&self, relationship_id: i64, invitee_id: u64, guild_id: u64) -> (r:
        bool)
        ensures
            r == (pending_invite(self.model().invites, relationship_id, invitee_id)
                && rel_active_in_guild(self.model().rels, relationship_id, guild_id)),
    {
        match self.find_pending_invite_idx(relationship_id, invitee_id) {
            Some(_) => self.rel_active_in_guild_exec(relationship_id, guild_id),
            None => false,
        }
    }

    /// Whether a group with this id exists in this community, whatever its
    /// status.
    fn rel_in_guild_exec(&self, relationship_id: i64, guild_id: u64) -> (r: bool)
        ensures
            r == rel_in_guild(self.model().rels, relationship_id, guild_id),
    {
        let n = self.relationships.len();
        let mut i: usize = 0;
        while i < n
            invariant
                n == self.model().rels.len(),
                i <= n,
                forall|j: int|
                    0 <= j < i ==> !((#[trigger] self.model().rels[j]).id == relationship_id
                        && self.model().rels[j].guild_id == guild_id),
            decreases n - i,
        {
            let row = &self.relationships[i];
            if row.id == relationship_id && row.guild_id == guild_id {
                assert(self.model().rels[i as int] == rel_view(self.relationships@[i as int]));
                return true;
            }
            i = i + 1;
        }
        false
    }

    /// How many members of the group are currently active.
    fn count_active_members(&self, relationship_id: i64) -> (c: usize)
        ensures
            c as int == active_member_count(self.model().members, relationship_id),
    {
        let ms = &self.members;
        let n = ms.len();
        let mut c: usize = 0;
        let mut i: usize = 0;
        while i < n
            invariant
                n == self.model().members.len(),
                i <= n,
                c <= i,
                c as int == active_member_count(
                    self.model().members.subrange(0, i as int),
                    relationship_id,
                ),
            decreases n - i,
        {
            let ghost pre = self.model().members.subrange(0, i as int);
            let mr = self.members[i];
            if mr.relationship_id == relationship_id && mr.left_at.is_none() {
                c = c + 1;
            }
            i = i + 1;
            proof {
                assert(self.model().members.subrange(0, i as int).drop_last() =~= pre);
                assert(self.model().members.subrange(0, i as int).last() == mr);
            }
        }
        proof {
            assert(self.model().members.subrange(0, n as int) =~= self.model().members);
        }
        c
    }

    /// Inserts a fresh active group and returns its id.
    fn create_relationship(
        &mut self,
        guild_id: u64,
        created_by: u64,
        relationship_type: &str,
        emoji: Option<String>,
        description: Option<String>,
        now: i64,
    ) -> (id: i64)
        requires
            old(self).wf(),
            old(self).model().next_relationship_id < i64::MAX,
        ensures
            final(self).wf(),
            (final(self).model(), id) == create_transition(
                old(self).model(),
                guild_id,
                created_by,
                relationship_type@,
                opt_view(emoji),
                opt_view(description),
                now,
            ),
    {
        let id = self.next_relationship_id;
        let row = RelationshipRow {
            id,
            guild_id,
            relationship_type: String::from_str(relationship_type),
            emoji,
            description,
            status: RelStatus::Active,
            created_by,
            created_at: now,
            ended_at: None,
        };
        self.relationships.push(row);
        self.next_relationship_id = id + 1;
        proof {
            let m0 = old(self).model();
            assert(self.model().rels =~= m0.rels.push(
                RelData {
                    id,
                    guild_id,
                    ty: relationship_type@,
                    emoji: opt_view(emoji),
                    description: opt_view(description),
                    status: RelStatus::Active,
                    created_by,
                    created_at: now,
                    ended_at: None,
                },
            ));
        }
        id
    }

    /// Makes `user_id` an active member of the group: an old row is revived
    /// with a fresh join time, else a row is inserted.
    fn add_active_member(&mut self, relationship_id: i64, user_id: u64, now: i64)
        requires
            old(self).wf(),
        ensures
            final(self).wf(),
            final(self).model().members == upsert_member(
                old(self).model().members,
                relationship_id,
                user_id,
                now,
            ),
            final(self).model().rels == old(self).model().rels,
            final(self).model().invites == old(self).model().invites,
            final(self).model().next_relationship_id == old(self).model().next_relationship_id,
            final(self).model().next_invite_id == old(self).model().next_invite_id,
    {
        let ghost ms0 = self.model().members;
        match self.find_member_idx(relationship_id, user_id) {
            Some(i) => {
                let mut row = self.members[i];
                row.joined_at = now;
                row.left_at = None;
                self.members[i] = row;
                proof {
                    assert(has_member_row(ms0, relationship_id, user_id));
                    lemma_member_distinct(ms0, i as int);
                    assert(self.model().members =~= upsert_member(
                        ms0,
                        relationship_id,
                        user_id,
                        now,
                    ));
                }
            },
            None => {
                self.members.push(
                    MemberRow { relationship_id, user_id, joined_at: now, left_at: None },
                );
            },
        }
    }

    /// Ends the group if it is still active; reports whether it was.
    fn end_rel_exec(&mut self, relationship_id: i64, now: i64) -> (was_active: bool)
        requires
            old(self).wf(),
        ensures
            final(self).wf(),
            final(self).model().rels == end_rel(old(self).model().rels, relationship_id, now),
            final(self).model().members == old(self).model().members,
            final(self).model().invites == old(self).model().invites,
            final(self).model().next_relationship_id == old(self).model().next_relationship_id,
            final(self).model().next_invite_id == old(self).model().next_invite_id,
            was_active == rel_active(old(self).model().rels, relationship_id),
    {
        let ghost rs0 = self.model().rels;
        let n = self.relationships.len();
        let mut i: usize = 0;
        while i < n
            invariant
                n == self.model().rels.len(),
                self.model() == old(self).model(),
                rs0 == self.model().rels,
                old(self).wf(),
                i <= n,
                forall|j: int| 0 <= j < i ==> (#[trigger] self.model().rels[j]).id != relationship_id,
            decreases n - i,
        {
            let active_here = matches!(self.relationships[i].status, RelStatus::Active);
            if self.relationships[i].id == relationship_id {
                proof {
                    assert(rs0[i as int] == rel_view(self.relationships@[i as int]));
                    lemma_rel_id_distinct(rs0, i as int);
                }
                if active_here {
                    let ghost rows_before = self.relationships@;
                    let mut row = self.relationships.remove(i);
                    row.status = RelStatus::Ended;
                    row.ended_at = Some(now);
                    self.relationships.insert(i, row);
                    proof {
                        assert(self.relationships@ =~= rows_before.update(
                            i as int,
                            self.relationships@[i as int],
                        ));
                        assert(self.model().rels =~= end_rel(rs0, relationship_id, now));
                    }
                    return true;
                } else {
                    proof {
                        assert(self.model().rels =~= end_rel(rs0, relationship_id, now));
                        if rel_active(rs0, relationship_id) {
                            let k = choose|k: int|
                                0 <= k < rs0.len() && (#[trigger] rs0[k]).id == relationship_id
                                    && rs0[k].status == RelStatus::Active;
                            assert(k == i as int);
                        }
                    }
                    return false;
                }
            }
            i = i + 1;
        }
        proof {
            assert(self.model().rels =~= end_rel(rs0, relationship_id, now));
        }
        false
    }

    /// Flips every pending invite for `(relationship_id, invitee_id)` to
    /// `to_status` and reports how many rows changed.
    fn mark_pending_rows(
        &mut self,
        relationship_id: i64,
        invitee_id: u64,
        to_status: InviteStatus,
        now: i64,
    ) -> (count: usize)
        requires
            old(self).wf(),
            to_status != InviteStatus::Pending,
        ensures
            final(self).wf(),
            final(self).model().invites == mark_pending_invites(
                old(self).model().invites,
                relationship_id,
                invitee_id,
                to_status,
                now,
            ),
            final(self).model().rels == old(self).model().rels,
            final(self).model().members == old(self).model().members,
            final(self).model().next_relationship_id == old(self).model().next_relationship_id,
            final(self).model().next_invite_id == old(self).model().next_invite_id,
            count as int == pending_count(old(self).model().invites, relationship_id, invitee_id),
    {
        let ghost is0 = self.model().invites;
        let n = self.invites.len();
        let mut count: usize = 0;
        let mut i: usize = 0;
        while i < n
            invariant
                n == is0.len(),
                n == self.model().invites.len(),
                self.model().rels == old(self).model().rels,
                self.model().members == old(self).model().members,
                self.model().next_relationship_id == old(self).model().next_relationship_id,
                self.model().next_invite_id == old(self).model().next_invite_id,
                is0 == old(self).model().invites,
                i <= n,
                count <= i,
                count as int == pending_count(is0.subrange(0, i as int), relationship_id, invitee_id),
                forall|j: int|
                    0 <= j < i ==> #[trigger] self.model().invites[j] == mark_one_invite(
                        is0[j],
                        relationship_id,
                        invitee_id,
                        to_status,
                        now,
                    ),
                forall|j: int| i <= j < n ==> #[trigger] self.model().invites[j] == is0[j],
            decreases n - i,
        {
            let ghost pre = is0.subrange(0, i as int);
            let inv = self.invites[i];
            if inv.relationship_id == relationship_id && inv.invitee_id == invitee_id && matches!(
                inv.status,
                InviteStatus::Pending,
            ) {
                let mut row = inv;
                row.status = to_status;
                row.responded_at = Some(now);
                self.invites[i] = row;
                count = count + 1;
            }
            i = i + 1;
            proof {
                assert(is0.subrange(0, i as int).drop_last() =~= pre);
                assert(is0.subrange(0, i as int).last() == is0[i - 1]);
            }
        }
        proof {
            assert(is0.subrange(0, n as int) =~= is0);
            assert(self.model().invites =~= mark_pending_invites(
                is0,
                relationship_id,
                invitee_id,
                to_status,
                now,
            ));
        }
        count
    }

    /// Whether the group may receive a `make` invite from `user_id`: active,
    /// of the requested type, in this community, with `user_id` an active
    /// member.
    fn rel_eligible_exec(
        &self,
        relationship_id: i64,
        guild_id: u64,
        relationship_type: &str,
        user_id: u64,
    ) -> (r: bool)
        ensures
            r == rel_eligible(
                self.model(),
                relationship_id,
                guild_id,
                relationship_type@,
                user_id,
            ),
    {
        let n = self.relationships.len();
        let mut i: usize = 0;
        while i < n
            invariant
                n == self.model().rels.len(),
                i <= n,
                forall|j: int|
                    0 <= j < i ==> !((#[trigger] self.model().rels[j]).id == relationship_id
                        && self.model().rels[j].guild_id == guild_id && self.model().rels[j].ty
                        == relationship_type@ && self.model().rels[j].status == RelStatus::Active),
            decreases n - i,
        {
            let row = &self.relationships[i];
            proof {
                assert(self.model().rels[i as int] == rel_view(self.relationships@[i as int]));
            }
            if row.id == relationship_id && row.guild_id == guild_id && matches!(
                row.status,
                RelStatus::Active,
            ) && crate::text::str_eq(row.relationship_type.as_str(), relationship_type) {
                return self.member_active_exec(relationship_id, user_id);
            }
            i = i + 1;
        }
        false
    }

    /// Ids of the caller's active groups of this type in this community, in
    /// ascending order.
    fn caller_rel_ids_exec(&self, guild_id: u64, relationship_type: &str, caller_id: u64) -> (ids:
        Vec<i64>)
        ensures
            ids@ == caller_rel_ids(
                self.model().rels,
                self.model().members,
                guild_id,
                relationship_type@,
                caller_id,
            ),
    {
        let n = self.relationships.len();
        let mut ids: Vec<i64> = Vec::new();
        let mut i: usize = 0;
        proof {
            assert(caller_rel_ids(
                self.model().rels.subrange(0, 0),
                self.model().members,
                guild_id,
                relationship_type@,
                caller_id,
            ) =~= ids@);
        }
        while i < n
            invariant
                n == self.model().rels.len(),
                i <= n,
                ids@ == caller_rel_ids(
                    self.model().rels.subrange(0, i as int),
                    self.model().members,
                    guild_id,
                    relationship_type@,
                    caller_id,
                ),
            decreases n - i,
        {
            let ghost pre = self.model().rels.subrange(0, i as int);
            proof {
                assert(self.model().rels[i as int] == rel_view(self.relationships@[i as int]));
            }
            let row = &self.relationships[i];
            if row.guild_id == guild_id && matches!(row.status, RelStatus::Active)
                && crate::text::str_eq(row.relationship_type.as_str(), relationship_type) {
                if self.member_active_exec(row.id, caller_id) {
                    let id = self.relationships[i].id;
                    ids.push(id);
                }
            }
            i = i + 1;
            proof {
                assert(self.model().rels.subrange(0, i as int).drop_last() =~= pre);
                assert(self.model().rels.subrange(0, i as int).last() == self.model().rels[i - 1]);
            }
        }
        proof {
            assert(self.model().rels.subrange(0, n as int) =~= self.model().rels);
        }
        ids
    }

    /// Ids of the active groups of this type in this community holding both
    /// users as active members, in ascending order.
    pub fn shared_relationship_ids(
        &self,
        guild_id: u64,
        relationship_type: &str,
        user_a: u64,
        user_b: u64,
    ) -> (ids: Vec<i64>)
        ensures
            ids@ == shared_rel_ids(
                self.model().rels,
                self.model().members,
                guild_id,
                relationship_type@,
                user_a,
                user_b,
            ),
    {
        let n = self.relationships.len();
        let mut ids: Vec<i64> = Vec::new();
        let mut i: usize = 0;
        proof {
            assert(shared_rel_ids(
                self.model().rels.subrange(0, 0),
                self.model().members,
                guild_id,
                relationship_type@,
                user_a,
                user_b,
            ) =~= ids@);
        }
        while i < n
            invariant
                n == self.model().rels.len(),
                i <= n,
                ids@ == shared_rel_ids(
                    self.model().rels.subrange(0, i as int),
                    self.model().members,
                    guild_id,
                    relationship_type@,
                    user_a,
                    user_b,
                ),
            decreases n - i,
        {
            let ghost pre = self.model().rels.subrange(0, i as int);
            proof {
                assert(self.model().rels[i as int] == rel_view(self.relationships@[i as int]));
            }
            let row = &self.relationships[i];
            if row.guild_id == guild_id && matches!(row.status, RelStatus::Active)
                && crate::text::str_eq(row.relationship_type.as_str(), relationship_type) {
                let id = row.id;
                if self.member_active_exec(id, user_a) && self.member_active_exec(id, user_b) {
                    ids.push(id);
                }
            }
            i = i + 1;
            proof {
                assert(self.model().rels.subrange(0, i as int).drop_last() =~= pre);
                assert(self.model().rels.subrange(0, i as int).last() == self.model().rels[i - 1]);
            }
        }
        proof {
            assert(self.model().rels.subrange(0, n as int) =~= self.model().rels);
        }
        ids
    }

    /// Resolves which group a `make` command works on, at a given time:
    /// an explicit id must name an eligible group; otherwise the caller's
    /// groups of this type decide — none means a fresh group is created with
    /// the caller as first member, one is reused, several are refused as
    /// ambiguous.
    pub fn resolve_relationship_for_make_at(
        &mut self,
        guild_id: u64,
        caller_id: u64,
        relationship_type: &str,
        explicit_relationship_id: Option<i64>,
        emoji: Option<String>,
        description: Option<String>,
        now: i64,
    ) -> (r: Result<MakeResolution, MakeRejection>)
        requires
            old(self).wf(),
            old(self).model().next_relationship_id < i64::MAX,
        ensures
            final(self).wf(),
            resolve_post(
                old(self).model(),
                final(self).model(),
                r,
                guild_id,
                caller_id,
                relationship_type@,
                explicit_relationship_id,
                opt_view(emoji),
                opt_view(description),
                now,
            ),
    {
        let ghost m0 = self.model();
        match explicit_relationship_id {
            Some(id) => {
                if self.rel_eligible_exec(id, guild_id, relationship_type, caller_id) {
                    Ok(MakeResolution { relationship_id: id, created_new_group: false })
                } else {
                    Err(MakeRejection::NotEligible)
                }
            },
            None => {
                let ids = self.caller_rel_ids_exec(guild_id, relationship_type, caller_id);
                if ids.len() > 1 {
                    Err(MakeRejection::Ambiguous(ids))
                } else if ids.len() == 1 {
                    let id = ids[0];
                    Ok(MakeResolution { relationship_id: id, created_new_group: false })
                } else {
                    let new_id = self.create_relationship(
                        guild_id,
                        caller_id,
                        relationship_type,
                        emoji,
                        description,
                        now,
                    );
                    self.add_active_member(new_id, caller_id, now);
                    Ok(MakeResolution { relationship_id: new_id, created_new_group: true })
                }
            },
        }
    }

    /// Tries to attach a pending invite to the group, at a given time.
    /// `None` means the invite is in; otherwise the rejection says why the
    /// request changed nothing.
    pub fn try_create_invite_at(
        &mut self,
        relationship_id: i64,
        inviter_id: u64,
        invitee_id: u64,
        now: i64,
    ) -> (r: Option<InviteRejection>)
        requires
            old(self).wf(),
            old(self).model().next_invite_id < i64::MAX,
        ensures
            final(self).wf(),
            (final(self).model(), r) == invite_transition(
                old(self).model(),
                relationship_id,
                inviter_id,
                invitee_id,
                now,
            ),
    {
        let ghost m0 = self.model();
        if self.member_active_exec(relationship_id, invitee_id) {
            return Some(InviteRejection::AlreadyMember);
        }
        match self.find_pending_invite_idx(relationship_id, invitee_id) {
            Some(i) => {
                proof {
                    assert(pending_invite(m0.invites, relationship_id, invitee_id));
                }
                Some(InviteRejection::AlreadyPending)
            },
            None => {
                let id = self.next_invite_id;
                self.invites.push(
                    InviteRow {
                        id,
                        relationship_id,
                        inviter_id,
                        invitee_id,
                        status: InviteStatus::Pending,
                        created_at: now,
                        responded_at: None,
                    },
                );
                self.next_invite_id = id + 1;
                None
            },
        }
    }

    /// Accepts the pending invite, at a given time: the invitee becomes an
    /// active member and the invite is marked accepted. Callers check
    /// [`Self::has_pending_invite`] first, as the command layer does.
    pub fn accept_invite_at(&mut self, relationship_id: i64, invitee_id: u64, now: i64)
        requires
            old(self).wf(),
        ensures
            final(self).wf(),
            final(self).model() == accept_transition(
                old(self).model(),
                relationship_id,
                invitee_id,
                now,
            ),
    {
        let ghost m0 = self.model();
        self.add_active_member(relationship_id, invitee_id, now);
        self.mark_pending_rows(relationship_id, invitee_id, InviteStatus::Accepted, now);
        proof {
            assert(self.model() == accept_transition(m0, relationship_id, invitee_id, now));
        }
    }

    /// Declines the pending invite, at a given time, provided the group
    /// belongs to this community; returns how many invite rows changed (0
    /// where nothing was pending).
    pub fn decline_invite_at(
        &mut self,
        relationship_id: i64,
        invitee_id: u64,
        guild_id: u64,
        now: i64,
    ) -> (count: usize)
        requires
            old(self).wf(),
        ensures
            final(self).wf(),
            ({
                let (m1, c) = decline_transition(
                    old(self).model(),
                    relationship_id,
                    invitee_id,
                    guild_id,
                    now,
                );
                final(self).model() == m1 && count as int == c
            }),
    {
        let ghost m0 = self.model();
        if !self.rel_in_guild_exec(relationship_id, guild_id) {
            return 0;
        }
        let count = self.mark_pending_rows(relationship_id, invitee_id, InviteStatus::Declined, now);
        count
    }

    /// Closes the caller's membership, at a given time; the group ends once
    /// fewer than two active members remain, and the return value reports
    /// that. A user who is not an active member changes nothing.
    pub fn leave_relationship_at(&mut self, relationship_id: i64, user_id: u64, now: i64) -> (ended:
        bool)
        requires
            old(self).wf(),
        ensures
            final(self).wf(),
            (final(self).model(), ended) == leave_transition(
                old(self).model(),
                relationship_id,
                user_id,
                now,
            ),
    {
        let ghost m0 = self.model();
        match self.find_member_idx(relationship_id, user_id) {
            Some(i) => {
                let mr = self.members[i];
                if mr.left_at.is_none() {
                    proof {
                        assert(member_active(m0.members, relationship_id, user_id));
                    }
                    let mut row = mr;
                    row.left_at = Some(now);
                    self.members[i] = row;
                    proof {
                        lemma_member_distinct(m0.members, i as int);
                        assert(self.model().members =~= mark_left(
                            m0.members,
                            relationship_id,
                            user_id,
                            now,
                        ));
                        assert(self.wf());
                    }
                    let cnt = self.count_active_members(relationship_id);
                    if cnt < 2 {
                        let was_active = self.end_rel_exec(relationship_id, now);
                        was_active
                    } else {
                        false
                    }
                } else {
                    proof {
                        lemma_member_distinct(m0.members, i as int);
                        if member_active(m0.members, relationship_id, user_id) {
                            let k = choose|k: int|
                                0 <= k < m0.members.len() && (
                                #[trigger] m0.members[k]).relationship_id == relationship_id
                                    && m0.members[k].user_id == user_id && m0.members[k].left_at
                                    is None;
                            assert(k != i);
                            assert(false);
                        }
                    }
                    false
                }
            },
            None => {
                proof {
                    if member_active(m0.members, relationship_id, user_id) {
                        let k = choose|k: int|
                            0 <= k < m0.members.len() && (#[trigger] m0.members[k]).relationship_id
                                == relationship_id && m0.members[k].user_id == user_id
                                && m0.members[k].left_at is None;
                        assert(has_member_row(m0.members, relationship_id, user_id));
                    }
                }
                false
            },
        }
    }

    /// Ends a shared group by type, at a given time: the single active group
    /// of this type holding both users decides; none is reported, several
    /// are refused as ambiguous, exactly one is left via
    /// [`Self::leave_relationship_at`].
    pub fn end_shared_at(
        &mut self,
        guild_id: u64,
        relationship_type: &str,
        caller_id: u64,
        target_id: u64,
        now: i64,
    ) -> (r: EndOutcome)
        requires
            old(self).wf(),
        ensures
            final(self).wf(),
            end_shared_post(
                old(self).model(),
                final(self).model(),
                r,
                guild_id,
                relationship_type@,
                caller_id,
                target_id,
                now,
            ),
    {
        let ids = self.shared_relationship_ids(guild_id, relationship_type, caller_id, target_id);
        if ids.len() == 0 {
            EndOutcome::NoneShared
        } else if ids.len() > 1 {
            EndOutcome::Ambiguous(ids)
        } else {
            let id = ids[0];
            let ended = self.leave_relationship_at(id, caller_id, now);
            EndOutcome::Left { relationship_id: id, ended }
        }
    }

    /// [`Self::resolve_relationship_for_make_at`] stamped with the wall
    /// clock.
    pub fn resolve_relationship_for_make(
        &mut self,
        guild_id: u64,
        caller_id: u64,
        relationship_type: &str,
        explicit_relationship_id: Option<i64>,
        emoji: Option<String>,
        description: Option<String>,
    ) -> (r: Result<MakeResolution, MakeRejection>)
        requires
            old(self).wf(),
            old(self).model().next_relationship_id < i64::MAX,
        ensures
            final(self).wf(),
            exists|ts: i64|
                #[trigger] resolve_post(
                    old(self).model(),
                    final(self).model(),
                    r,
                    guild_id,
                    caller_id,
                    relationship_type@,
                    explicit_relationship_id,
                    opt_view(emoji),
                    opt_view(description),
                    ts,
                ),
    {
        let ts = now_ts();
        self.resolve_relationship_for_make_at(
            guild_id,
            caller_id,
            relationship_type,
            explicit_relationship_id,
            emoji,
            description,
            ts,
        )
    }

    /// [`Self::try_create_invite_at`] stamped with the wall clock.
    pub fn try_create_invite(
        &mut self,
        relationship_id: i64,
        inviter_id: u64,
        invitee_id: u64,
    ) -> (r: Option<InviteRejection>)
        requires
            old(self).wf(),
            old(self).model().next_invite_id < i64::MAX,
        ensures
            final(self).wf(),
            exists|ts: i64|
                (final(self).model(), r) == #[trigger] invite_transition(
                    old(self).model(),
                    relationship_id,
                    inviter_id,
                    invitee_id,
                    ts,
                ),
    {
        let ts = now_ts();
        self.try_create_invite_at(relationship_id, inviter_id, invitee_id, ts)
    }

    /// [`Self::accept_invite_at`] stamped with the wall clock.
    pub fn accept_invite(&mut self, relationship_id: i64, invitee_id: u64)
        requires
            old(self).wf(),
        ensures
            final(self).wf(),
            exists|ts: i64|
                final(self).model() == #[trigger] accept_transition(
                    old(self).model(),
                    relationship_id,
                    invitee_id,
                    ts,
                ),
    {
        let ts = now_ts();
        self.accept_invite_at(relationship_id, invitee_id, ts);
    }

    /// [`Self::decline_invite_at`] stamped with the wall clock.
    pub fn decline_invite(&mut self, relationship_id: i64, invitee_id: u64, guild_id: u64) -> (count:
        usize)
        requires
            old(self).wf(),
        ensures
            final(self).wf(),
            exists|ts: i64|
                (final(self).model(), count as int) == #[trigger] decline_transition(
                    old(self).model(),
                    relationship_id,
                    invitee_id,
                    guild_id,
                    ts,
                ),
    {
        let ts = now_ts();
        self.decline_invite_at(relationship_id, invitee_id, guild_id, ts)
    }

    /// [`Self::leave_relationship_at`] stamped with the wall clock.
    pub fn leave_relationship(&mut self, relationship_id: i64, user_id: u64) -> (ended: bool)
        requires
            old(self).wf(),
        ensures
            final(self).wf(),
            exists|ts: i64|
                (final(self).model(), ended) == #[trigger] leave_transition(
                    old(self).model(),
                    relationship_id,
                    user_id,
                    ts,
                ),
    {
        let ts = now_ts();
        self.leave_relationship_at(relationship_id, user_id, ts)
    }

    /// [`Self::end_shared_at`] stamped with the wall clock.
    pub fn end_shared(
        &mut self,
        guild_id: u64,
        relationship_type: &str,
        caller_id: u64,
        target_id: u64,
    ) -> (r: EndOutcome)
        requires
            old(self).wf(),
        ensures
            final(self).wf(),
            exists|ts: i64|
                #[trigger] end_shared_post(
                    old(self).model(),
                    final(self).model(),
                    r,
                    guild_id,
                    relationship_type@,
                    caller_id,
                    target_id,
                    ts,
                ),
    {
        let ts = now_ts();
        self.end_shared_at(guild_id, relationship_type, caller_id, target_id, ts)
    }
}

/// Relies on chrono's `Utc::now`: the current Unix timestamp in seconds.
/// Nothing is assumed of the clock's reading.
#[verifier::external_body]
fn now_ts() -> i64 {
    chrono::Utc::now().timestamp()
}

/// Listing order: alphabetical by type, then ascending by id.
pub open spec fn type_id_le(ta: Seq<char>, ia: i64, tb: Seq<char>, ib: i64) -> bool {
    if ta == tb {
        ia <= ib
    } else {
        crate::text::seq_lex_le(ta, tb)
    }
}

proof fn lemma_type_id_le_total(ta: Seq<char>, ia: i64, tb: Seq<char>, ib: i64)
    ensures
        type_id_le(ta, ia, tb, ib) || type_id_le(tb, ib, ta, ia),
{
    crate::text::lemma_lex_total(ta, tb);
}

proof fn lemma_type_id_le_trans(
    ta: Seq<char>,
    ia: i64,
    tb: Seq<char>,
    ib: i64,
    tc: Seq<char>,
    ic: i64,
)
    requires
        type_id_le(ta, ia, tb, ib),
        type_id_le(tb, ib, tc, ic),
    ensures
        type_id_le(ta, ia, tc, ic),
{
    if ta != tb && tb != tc {
        crate::text::lemma_lex_transitive(ta, tb, tc);
        if ta == tc {
            crate::text::lemma_lex_antisymmetric(ta, tb);
        }
    }
}

proof fn lemma_insert_to_multiset<A>(s: Seq<A>, i: int, x: A)
    requires
        0 <= i <= s.len(),
    ensures
        s.insert(i, x).to_multiset() == s.to_multiset().insert(x),
{
    broadcast use vstd::seq_lib::group_to_multiset_ensures;
    broadcast use vstd::multiset::group_multiset_axioms;

    let s2 = s.insert(i, x);
    s.insert_ensures(i, x);
    assert(s2.remove(i) =~= s);
    assert(s2.remove(i).to_multiset() =~= s2.to_multiset().remove(s2[i]));
    assert(s2[i] == x);
    assert(s2.contains(x));
    assert(s2.to_multiset().count(x) > 0);
    assert(s2.to_multiset() =~= s.to_multiset().insert(x));
}

proof fn lemma_drop_first_to_multiset<A>(s: Seq<A>)
    requires
        s.len() > 0,
    ensures
        s.drop_first().to_multiset() == s.to_multiset().remove(s[0]),
{
    broadcast use vstd::seq_lib::group_to_multiset_ensures;

    assert(s.remove(0) =~= s.drop_first());
    assert(s.remove(0).to_multiset() =~= s.to_multiset().remove(s[0]));
}

/// One entry of a user's or community's group listing.
#[derive(Debug)]
pub struct ActiveRelationship {
    pub relationship_id: i64,
    pub relationship_type: String,
    pub emoji: Option<String>,
    pub description: Option<String>,
}

/// Ghost image of a listing entry.
pub ghost struct ListingData {
    pub relationship_id: i64,
    pub ty: Seq<char>,
    pub emoji: Option<Seq<char>>,
    pub description: Option<Seq<char>>,
}

pub open spec fn listing_view(a: ActiveRelationship) -> ListingData {
    ListingData {
        relationship_id: a.relationship_id,
        ty: a.relationship_type@,
        emoji: opt_view(a.emoji),
        description: opt_view(a.description),
    }
}

pub open spec fn listing_le(a: ListingData, b: ListingData) -> bool {
    type_id_le(a.ty, a.relationship_id, b.ty, b.relationship_id)
}

/// Sorted alphabetically by type, then ascending by id.
pub open spec fn sorted_listings(s: Seq<ListingData>) -> bool {
    forall|i: int, j: int| 0 <= i < j < s.len() ==> listing_le(#[trigger] s[i], #[trigger] s[j])
}

/// The listing entry a group row yields.
pub open spec fn listing_of(r: RelData) -> ListingData {
    ListingData { relationship_id: r.id, ty: r.ty, emoji: r.emoji, description: r.description }
}

/// Listing entries of the active groups in `guild_id` that `user_id` belongs
/// to, in table order.
pub open spec fn user_listings(
    rs: Seq<RelData>,
    ms: Seq<MemberRow>,
    guild_id: u64,
    user_id: u64,
) -> Seq<ListingData>
    decreases rs.len(),
{
    if rs.len() == 0 {
        Seq::empty()
    } else {
        let pre = user_listings(rs.drop_last(), ms, guild_id, user_id);
        let r = rs.last();
        if r.guild_id == guild_id && r.status == RelStatus::Active && member_active(
            ms,
            r.id,
            user_id,
        ) {
            pre.push(listing_of(r))
        } else {
            pre
        }
    }
}

/// Listing entries of all active groups in `guild_id`, in table order.
pub open spec fn guild_listings(rs: Seq<RelData>, guild_id: u64) -> Seq<ListingData>
    decreases rs.len(),
{
    if rs.len() == 0 {
        Seq::empty()
    } else {
        let pre = guild_listings(rs.drop_last(), guild_id);
        let r = rs.last();
        if r.guild_id == guild_id && r.status == RelStatus::Active {
            pre.push(listing_of(r))
        } else {
            pre
        }
    }
}

/// Active member ids of `relationship_id`, in table order.
pub open spec fn active_ids_of(ms: Seq<MemberRow>, relationship_id: i64) -> Seq<u64>
    decreases ms.len(),
{
    if ms.len() == 0 {
        Seq::empty()
    } else {
        let pre = active_ids_of(ms.drop_last(), relationship_id);
        if ms.last().relationship_id == relationship_id && ms.last().left_at is None {
            pre.push(ms.last().user_id)
        } else {
            pre
        }
    }
}

fn clone_opt_string(o: &Option<String>) -> (r: Option<String>)
    ensures
        opt_view(r) == opt_view(*o),
{
    match o {
        Some(s) => Some(s.clone()),
        None => None,
    }
}

fn listing_le_exec(a: &ActiveRelationship, b: &ActiveRelationship) -> (r: bool)
    ensures
        r == listing_le(listing_view(*a), listing_view(*b)),
{
    if crate::text::str_eq(a.relationship_type.as_str(), b.relationship_type.as_str()) {
        a.relationship_id <= b.relationship_id
    } else {
        crate::text::str_le(a.relationship_type.as_str(), b.relationship_type.as_str())
    }
}

/// Insertion sort of listing entries into listing order.
fn sort_listings(input: Vec<ActiveRelationship>) -> (out: Vec<ActiveRelationship>)
    ensures
        out@.map_values(|a: ActiveRelationship| listing_view(a)).to_multiset()
            == input@.map_values(|a: ActiveRelationship| listing_view(a)).to_multiset(),
        sorted_listings(out@.map_values(|a: ActiveRelationship| listing_view(a))),
{
    let ghost lv = |a: ActiveRelationship| listing_view(a);
    let ghost orig = input@.map_values(lv);
    let mut v = input;
    let mut out: Vec<ActiveRelationship> = Vec::new();
    proof {
        broadcast use vstd::seq_lib::group_to_multiset_ensures;
        broadcast use vstd::multiset::group_multiset_axioms;

        assert(v@.map_values(lv) =~= orig);
        assert(out@.map_values(lv) =~= Seq::<ListingData>::empty());
        assert(out@.map_values(lv).to_multiset().add(v@.map_values(lv).to_multiset()) =~= orig.to_multiset());
    }
    while v.len() > 0
        invariant
            lv == (|a: ActiveRelationship| listing_view(a)),
            out@.map_values(lv).to_multiset().add(v@.map_values(lv).to_multiset())
                == orig.to_multiset(),
            sorted_listings(out@.map_values(lv)),
        decreases v@.len(),
    {
        let ghost vs0 = v@.map_values(lv);
        let ghost os0 = out@.map_values(lv);
        let x = v.remove(0);
        let ghost xv = listing_view(x);
        proof {
            broadcast use vstd::seq_lib::group_to_multiset_ensures;
            broadcast use vstd::multiset::group_multiset_axioms;

            assert(v@.map_values(lv) =~= vs0.drop_first());
            assert(vs0[0] == xv);
            lemma_drop_first_to_multiset(vs0);
        }
        let mut p: usize = 0;
        while p < out.len() && listing_le_exec(&out[p], &x)
            invariant
                lv == (|a: ActiveRelationship| listing_view(a)),
                p <= out@.len(),
                xv == listing_view(x),
                forall|j: int| 0 <= j < p ==> listing_le(#[trigger] out@.map_values(lv)[j], xv),
            decreases out@.len() - p,
        {
            p = p + 1;
        }
        let ghost p0 = p as int;
        out.insert(p, x);
        proof {
            broadcast use vstd::seq_lib::group_to_multiset_ensures;
            broadcast use vstd::multiset::group_multiset_axioms;

            let os1 = out@.map_values(lv);
            assert(os1 =~= os0.insert(p0, xv));
            lemma_insert_to_multiset(os0, p0, xv);
            assert(os1.to_multiset().add(v@.map_values(lv).to_multiset()) =~= orig.to_multiset());
            os0.insert_ensures(p0, xv);
            assert forall|i: int, j: int| 0 <= i < j < os1.len() implies listing_le(
                #[trigger] os1[i],
                #[trigger] os1[j],
            ) by {
                let a = os1[i];
                let b = os1[j];
                if i < p0 && j < p0 {
                    assert(listing_le(os0[i], os0[j]));
                } else if i < p0 && j == p0 {
                    assert(listing_le(os0[i], xv));
                } else if i < p0 && j > p0 {
                    assert(listing_le(os0[i], os0[j - 1]));
                } else if i == p0 {
                    assert(b == os0[j - 1]);
                    if p0 < os0.len() {
                        assert(!listing_le(os0[p0], xv));
                        lemma_type_id_le_total(
                            xv.ty,
                            xv.relationship_id,
                            os0[p0].ty,
                            os0[p0].relationship_id,
                        );
                        assert(listing_le(xv, os0[p0]));
                        if j - 1 > p0 {
                            assert(listing_le(os0[p0], os0[j - 1]));
                        }
                        lemma_type_id_le_trans(
                            xv.ty,
                            xv.relationship_id,
                            os0[p0].ty,
                            os0[p0].relationship_id,
                            os0[j - 1].ty,
                            os0[j - 1].relationship_id,
                        );
                    } else {
                        assert(false);
                    }
                } else {
                    assert(a == os0[i - 1] && b == os0[j - 1]);
                    assert(listing_le(os0[i - 1], os0[j - 1]));
                }
            }
        }
    }
    proof {
        broadcast use vstd::seq_lib::group_to_multiset_ensures;
        broadcast use vstd::multiset::group_multiset_axioms;

        assert(v@.map_values(lv) =~= Seq::<ListingData>::empty());
        assert(out@.map_values(lv).to_multiset() =~= orig.to_multiset());
    }
    out
}

/// Insertion sort of member ids into ascending order.
fn sort_u64(input: Vec<u64>) -> (out: Vec<u64>)
    ensures
        out@.to_multiset() == input@.to_multiset(),
        forall|i: int, j: int| 0 <= i < j < out@.len() ==> out@[i] <= out@[j],
{
    let ghost orig = input@;
    let mut v = input;
    let mut out: Vec<u64> = Vec::new();
    proof {
        broadcast use vstd::seq_lib::group_to_multiset_ensures;
        broadcast use vstd::multiset::group_multiset_axioms;

        assert(out@.to_multiset().add(v@.to_multiset()) =~= orig.to_multiset());
    }
    while v.len() > 0
        invariant
            out@.to_multiset().add(v@.to_multiset()) == orig.to_multiset(),
            forall|i: int, j: int| 0 <= i < j < out@.len() ==> out@[i] <= out@[j],
        decreases v@.len(),
    {
        let ghost vs0 = v@;
        let ghost os0 = out@;
        let x = v.remove(0);
        proof {
            broadcast use vstd::seq_lib::group_to_multiset_ensures;
            broadcast use vstd::multiset::group_multiset_axioms;

            lemma_drop_first_to_multiset(vs0);
        }
        let mut p: usize = 0;
        while p < out.len() && out[p] <= x
            invariant
                p <= out@.len(),
                forall|j: int| 0 <= j < p ==> out@[j] <= x,
            decreases out@.len() - p,
        {
            p = p + 1;
        }
        let ghost p0 = p as int;
        out.insert(p, x);
        proof {
            broadcast use vstd::seq_lib::group_to_multiset_ensures;
            broadcast use vstd::multiset::group_multiset_axioms;

            lemma_insert_to_multiset(os0, p0, x);
            assert(out@.to_multiset().add(v@.to_multiset()) =~= orig.to_multiset());
            os0.insert_ensures(p0, x);
            assert forall|i: int, j: int| 0 <= i < j < out@.len() implies out@[i] <= out@[j] by {
                if i < p0 && j > p0 {
                    assert(out@[i] == os0[i] && out@[j] == os0[j - 1]);
                } else if i == p0 && j > p0 {
                    assert(out@[j] == os0[j - 1]);
                    assert(!(os0[p0] <= x));
                } else if i > p0 {
                    assert(out@[i] == os0[i - 1] && out@[j] == os0[j - 1]);
                }
            }
        }
    }
    proof {
        broadcast use vstd::seq_lib::group_to_multiset_ensures;
        broadcast use vstd::multiset::group_multiset_axioms;

        assert(out@.to_multiset() =~= orig.to_multiset());
    }
    out
}

impl RelationshipStore {
    fn collect_user_listings(&self, guild_id: u64, user_id: u64) -> (out: Vec<ActiveRelationship>)
        ensures
            out@.map_values(|a: ActiveRelationship| listing_view(a)) == user_listings(
                self.model().rels,
                self.model().members,
                guild_id,
                user_id,
            ),
    {
        let ghost lv = |a: ActiveRelationship| listing_view(a);
        let n = self.relationships.len();
        let mut out: Vec<ActiveRelationship> = Vec::new();
        let mut i: usize = 0;
        proof {
            assert(out@.map_values(lv) =~= user_listings(
                self.model().rels.subrange(0, 0),
                self.model().members,
                guild_id,
                user_id,
            ));
        }
        while i < n
            invariant
                lv == (|a: ActiveRelationship| listing_view(a)),
                n == self.model().rels.len(),
                i <= n,
                out@.map_values(lv) == user_listings(
                    self.model().rels.subrange(0, i as int),
                    self.model().members,
                    guild_id,
                    user_id,
                ),
            decreases n - i,
        {
            let ghost pre = self.model().rels.subrange(0, i as int);
            let ghost os0 = out@.map_values(lv);
            proof {
                assert(self.model().rels[i as int] == rel_view(self.relationships@[i as int]));
            }
            let row = &self.relationships[i];
            if row.guild_id == guild_id && matches!(row.status, RelStatus::Active) {
                if self.member_active_exec(row.id, user_id) {
                    let entry = ActiveRelationship {
                        relationship_id: row.id,
                        relationship_type: row.relationship_type.clone(),
                        emoji: clone_opt_string(&row.emoji),
                        description: clone_opt_string(&row.description),
                    };
                    proof {
                        assert(listing_view(entry) == listing_of(self.model().rels[i as int]));
                    }
                    out.push(entry);
                    proof {
                        assert(out@.map_values(lv) =~= os0.push(
                            listing_of(self.model().rels[i as int]),
                        ));
                    }
                }
            }
            i = i + 1;
            proof {
                assert(self.model().rels.subrange(0, i as int).drop_last() =~= pre);
                assert(self.model().rels.subrange(0, i as int).last() == self.model().rels[i - 1]);
            }
        }
        proof {
            assert(self.model().rels.subrange(0, n as int) =~= self.model().rels);
        }
        out
    }

    /// The caller's active groups in this community, sorted alphabetically by
    /// type and then ascending by id.
    pub fn list_active_relationships_for_user(&self, guild_id: u64, user_id: u64) -> (out: Vec<
        ActiveRelationship,
    >)
        ensures
            out@.map_values(|a: ActiveRelationship| listing_view(a)).to_multiset()
                == user_listings(
                self.model().rels,
                self.model().members,
                guild_id,
                user_id,
            ).to_multiset(),
            sorted_listings(out@.map_values(|a: ActiveRelationship| listing_view(a))),
    {
        let collected = self.collect_user_listings(guild_id, user_id);
        sort_listings(collected)
    }

    /// The group's active member ids, ascending.
    pub fn active_member_ids(&self, relationship_id: i64) -> (out: Vec<u64>)
        ensures
            out@.to_multiset() == active_ids_of(
                self.model().members,
                relationship_id,
            ).to_multiset(),
            forall|i: int, j: int| 0 <= i < j < out@.len() ==> out@[i] <= out@[j],
    {
        let n = self.members.len();
        let mut ids: Vec<u64> = Vec::new();
        let mut i: usize = 0;
        proof {
            assert(ids@ =~= active_ids_of(
                self.model().members.subrange(0, 0),
                relationship_id,
            ));
        }
        while i < n
            invariant
                n == self.model().members.len(),
                i <= n,
                ids@ == active_ids_of(
                    self.model().members.subrange(0, i as int),
                    relationship_id,
                ),
            decreases n - i,
        {
            let ghost pre = self.model().members.subrange(0, i as int);
            let mr = self.members[i];
            if mr.relationship_id == relationship_id && mr.left_at.is_none() {
                ids.push(mr.user_id);
            }
            i = i + 1;
            proof {
                assert(self.model().members.subrange(0, i as int).drop_last() =~= pre);
                assert(self.model().members.subrange(0, i as int).last() == mr);
            }
        }
        proof {
            assert(self.model().members.subrange(0, n as int) =~= self.model().members);
        }
        sort_u64(ids)
    }
}

/// First group row for `relationship_id`, if any.
pub open spec fn find_rel(rs: Seq<RelData>, relationship_id: i64) -> Option<RelData>
    decreases rs.len(),
{
    if rs.len() == 0 {
        None
    } else if rs[0].id == relationship_id {
        Some(rs[0])
    } else {
        find_rel(rs.drop_first(), relationship_id)
    }
}

proof fn lemma_find_rel_at(rs: Seq<RelData>, relationship_id: i64, i: int)
    requires
        0 <= i < rs.len(),
        rs[i].id == relationship_id,
        forall|j: int| 0 <= j < i ==> (#[trigger] rs[j]).id != relationship_id,
    ensures
        find_rel(rs, relationship_id) == Some(rs[i]),
    decreases i,
{
    if i > 0 {
        lemma_find_rel_at(rs.drop_first(), relationship_id, i - 1);
    }
}

proof fn lemma_find_rel_none(rs: Seq<RelData>, relationship_id: i64)
    requires
        forall|j: int| 0 <= j < rs.len() ==> (#[trigger] rs[j]).id != relationship_id,
    ensures
        find_rel(rs, relationship_id) is None,
    decreases rs.len(),
{
    if rs.len() > 0 {
        lemma_find_rel_none(rs.drop_first(), relationship_id);
    }
}

/// One entry of a user's pending-invite inbox.
#[derive(Debug)]
pub struct PendingInvite {
    pub relationship_id: i64,
    pub relationship_type: String,
    pub emoji: Option<String>,
    pub description: Option<String>,
    pub inviter_id: u64,
    pub created_at: i64,
}

/// Ghost image of an inbox entry.
pub ghost struct PendingInviteData {
    pub relationship_id: i64,
    pub ty: Seq<char>,
    pub emoji: Option<Seq<char>>,
    pub description: Option<Seq<char>>,
    pub inviter_id: u64,
    pub created_at: i64,
}

pub open spec fn pending_view(p: PendingInvite) -> PendingInviteData {
    PendingInviteData {
        relationship_id: p.relationship_id,
        ty: p.relationship_type@,
        emoji: opt_view(p.emoji),
        description: opt_view(p.description),
        inviter_id: p.inviter_id,
        created_at: p.created_at,
    }
}

pub open spec fn pending_le(a: PendingInviteData, b: PendingInviteData) -> bool {
    type_id_le(a.ty, a.relationship_id, b.ty, b.relationship_id)
}

pub open spec fn sorted_pending(s: Seq<PendingInviteData>) -> bool {
    forall|i: int, j: int| 0 <= i < j < s.len() ==> pending_le(#[trigger] s[i], #[trigger] s[j])
}

/// The inbox entry an invite yields against its group row.
pub open spec fn inbox_entry_of(inv: InviteRow, r: RelData) -> PendingInviteData {
    PendingInviteData {
        relationship_id: inv.relationship_id,
        ty: r.ty,
        emoji: r.emoji,
        description: r.description,
        inviter_id: inv.inviter_id,
        created_at: inv.created_at,
    }
}

/// The pending invites of `invitee_id` whose group is active and belongs to
/// `guild_id`, in invite-table order.
pub open spec fn user_pending_invites(
    rs: Seq<RelData>,
    is: Seq<InviteRow>,
    guild_id: u64,
    invitee_id: u64,
) -> Seq<PendingInviteData>
    decreases is.len(),
{
    if is.len() == 0 {
        Seq::empty()
    } else {
        let pre = user_pending_invites(rs, is.drop_last(), guild_id, invitee_id);
        let inv = is.last();
        if inv.invitee_id == invitee_id && inv.status == InviteStatus::Pending {
            match find_rel(rs, inv.relationship_id) {
                Some(r) => if r.guild_id == guild_id && r.status == RelStatus::Active {
                    pre.push(inbox_entry_of(inv, r))
                } else {
                    pre
                },
                None => pre,
            }
        } else {
            pre
        }
    }
}

fn pending_le_exec(a: &PendingInvite, b: &PendingInvite) -> (r: bool)
    ensures
        r == pending_le(pending_view(*a), pending_view(*b)),
{
    if crate::text::str_eq(a.relationship_type.as_str(), b.relationship_type.as_str()) {
        a.relationship_id <= b.relationship_id
    } else {
        crate::text::str_le(a.relationship_type.as_str(), b.relationship_type.as_str())
    }
}

/// Insertion sort of inbox entries into listing order.
fn sort_pending(input: Vec<PendingInvite>) -> (out: Vec<PendingInvite>)
    ensures
        out@.map_values(|a: PendingInvite| pending_view(a)).to_multiset() == input@.map_values(
            |a: PendingInvite| pending_view(a),
        ).to_multiset(),
        sorted_pending(out@.map_values(|a: PendingInvite| pending_view(a))),
{
    let ghost pv = |a: PendingInvite| pending_view(a);
    let ghost orig = input@.map_values(pv);
    let mut v = input;
    let mut out: Vec<PendingInvite> = Vec::new();
    proof {
        broadcast use vstd::seq_lib::group_to_multiset_ensures;
        broadcast use vstd::multiset::group_multiset_axioms;

        assert(v@.map_values(pv) =~= orig);
        assert(out@.map_values(pv) =~= Seq::<PendingInviteData>::empty());
        assert(out@.map_values(pv).to_multiset().add(v@.map_values(pv).to_multiset())
            =~= orig.to_multiset());
    }
    while v.len() > 0
        invariant
            pv == (|a: PendingInvite| pending_view(a)),
            out@.map_values(pv).to_multiset().add(v@.map_values(pv).to_multiset())
                == orig.to_multiset(),
            sorted_pending(out@.map_values(pv)),
        decreases v@.len(),
    {
        let ghost vs0 = v@.map_values(pv);
        let ghost os0 = out@.map_values(pv);
        let x = v.remove(0);
        let ghost xv = pending_view(x);
        proof {
            broadcast use vstd::seq_lib::group_to_multiset_ensures;
            broadcast use vstd::multiset::group_multiset_axioms;

            assert(v@.map_values(pv) =~= vs0.drop_first());
            assert(vs0[0] == xv);
            lemma_drop_first_to_multiset(vs0);
        }
        let mut p: usize = 0;
        while p < out.len() && pending_le_exec(&out[p], &x)
            invariant
                pv == (|a: PendingInvite| pending_view(a)),
                p <= out@.len(),
                xv == pending_view(x),
                forall|j: int| 0 <= j < p ==> pending_le(#[trigger] out@.map_values(pv)[j], xv),
            decreases out@.len() - p,
        {
            p = p + 1;
        }
        let ghost p0 = p as int;
        out.insert(p, x);
        proof {
            broadcast use vstd::seq_lib::group_to_multiset_ensures;
            broadcast use vstd::multiset::group_multiset_axioms;

            let os1 = out@.map_values(pv);
            assert(os1 =~= os0.insert(p0, xv));
            lemma_insert_to_multiset(os0, p0, xv);
            assert(os1.to_multiset().add(v@.map_values(pv).to_multiset()) =~= orig.to_multiset());
            os0.insert_ensures(p0, xv);
            assert forall|i: int, j: int| 0 <= i < j < os1.len() implies pending_le(
                #[trigger] os1[i],
                #[trigger] os1[j],
            ) by {
                if i < p0 && j == p0 {
                    assert(pending_le(os0[i], xv));
                } else if i < p0 && j > p0 {
                    assert(pending_le(os0[i], os0[j - 1]));
                } else if i == p0 {
                    if p0 < os0.len() {
                        assert(!pending_le(os0[p0], xv));
                        lemma_type_id_le_total(
                            xv.ty,
                            xv.relationship_id,
                            os0[p0].ty,
                            os0[p0].relationship_id,
                        );
                        if j - 1 > p0 {
                            assert(pending_le(os0[p0], os0[j - 1]));
                        }
                        lemma_type_id_le_trans(
                            xv.ty,
                            xv.relationship_id,
                            os0[p0].ty,
                            os0[p0].relationship_id,
                            os0[j - 1].ty,
                            os0[j - 1].relationship_id,
                        );
                    } else {
                        assert(false);
                    }
                } else if i > p0 {
                    assert(pending_le(os0[i - 1], os0[j - 1]));
                } else {
                    assert(pending_le(os0[i], os0[j]));
                }
            }
        }
    }
    proof {
        broadcast use vstd::seq_lib::group_to_multiset_ensures;
        broadcast use vstd::multiset::group_multiset_axioms;

        assert(v@.map_values(pv) =~= Seq::<PendingInviteData>::empty());
        assert(out@.map_values(pv).to_multiset() =~= orig.to_multiset());
    }
    out
}

/// One community group with its current active members.
#[derive(Debug)]
pub struct RelationshipGroup {
    pub relationship_id: i64,
    pub relationship_type: String,
    pub emoji: Option<String>,
    pub description: Option<String>,
    pub member_ids: Vec<u64>,
}

/// The listing entry a group entry carries.
pub open spec fn group_core_view(g: RelationshipGroup) -> ListingData {
    ListingData {
        relationship_id: g.relationship_id,
        ty: g.relationship_type@,
        emoji: opt_view(g.emoji),
        description: opt_view(g.description),
    }
}

impl RelationshipStore {
    fn find_rel_idx(&self, relationship_id: i64) -> (r: Option<usize>)
        ensures
            match r {
                Some(i) => i < self.model().rels.len() && self.model().rels[i as int].id
                    == relationship_id && find_rel(self.model().rels, relationship_id) == Some(
                    self.model().rels[i as int],
                ),
                None => find_rel(self.model().rels, relationship_id) is None,
            },
    {
        let n = self.relationships.len();
        let mut i: usize = 0;
        while i < n
            invariant
                n == self.model().rels.len(),
                i <= n,
                forall|j: int| 0 <= j < i ==> (#[trigger] self.model().rels[j]).id != relationship_id,
            decreases n - i,
        {
            proof {
                assert(self.model().rels[i as int] == rel_view(self.relationships@[i as int]));
            }
            if self.relationships[i].id == relationship_id {
                proof {
                    lemma_find_rel_at(self.model().rels, relationship_id, i as int);
                }
                return Some(i);
            }
            i = i + 1;
        }
        proof {
            lemma_find_rel_none(self.model().rels, relationship_id);
        }
        None
    }

    /// The invitee's pending invites onto active groups of this community,
    /// sorted alphabetically by type and then ascending by id.
    pub fn list_pending_invites_for_user(&self, guild_id: u64, invitee_id: u64) -> (out: Vec<
        PendingInvite,
    >)
        ensures
            out@.map_values(|a: PendingInvite| pending_view(a)).to_multiset()
                == user_pending_invites(
                self.model().rels,
                self.model().invites,
                guild_id,
                invitee_id,
            ).to_multiset(),
            sorted_pending(out@.map_values(|a: PendingInvite| pending_view(a))),
    {
        let ghost pv = |a: PendingInvite| pending_view(a);
        let n = self.invites.len();
        let mut collected: Vec<PendingInvite> = Vec::new();
        let mut i: usize = 0;
        proof {
            assert(collected@.map_values(pv) =~= user_pending_invites(
                self.model().rels,
                self.model().invites.subrange(0, 0),
                guild_id,
                invitee_id,
            ));
        }
        while i < n
            invariant
                pv == (|a: PendingInvite| pending_view(a)),
                n == self.model().invites.len(),
                i <= n,
                collected@.map_values(pv) == user_pending_invites(
                    self.model().rels,
                    self.model().invites.subrange(0, i as int),
                    guild_id,
                    invitee_id,
                ),
            decreases n - i,
        {
            let ghost pre = self.model().invites.subrange(0, i as int);
            let ghost cs0 = collected@.map_values(pv);
            let inv = self.invites[i];
            if inv.invitee_id == invitee_id && matches!(inv.status, InviteStatus::Pending) {
                match self.find_rel_idx(inv.relationship_id) {
                    Some(k) => {
                        proof {
                            assert(self.model().rels[k as int] == rel_view(
                                self.relationships@[k as int],
                            ));
                        }
                        let row = &self.relationships[k];
                        if row.guild_id == guild_id && matches!(row.status, RelStatus::Active) {
                            let entry = PendingInvite {
                                relationship_id: inv.relationship_id,
                                relationship_type: row.relationship_type.clone(),
                                emoji: clone_opt_string(&row.emoji),
                                description: clone_opt_string(&row.description),
                                inviter_id: inv.inviter_id,
                                created_at: inv.created_at,
                            };
                            proof {
                                assert(pending_view(entry) == inbox_entry_of(
                                    inv,
                                    self.model().rels[k as int],
                                ));
                            }
                            collected.push(entry);
                            proof {
                                assert(collected@.map_values(pv) =~= cs0.push(
                                    inbox_entry_of(inv, self.model().rels[k as int]),
                                ));
                            }
                        }
                    },
                    None => {},
                }
            }
            i = i + 1;
            proof {
                assert(self.model().invites.subrange(0, i as int).drop_last() =~= pre);
                assert(self.model().invites.subrange(0, i as int).last() == inv);
            }
        }
        proof {
            assert(self.model().invites.subrange(0, n as int) =~= self.model().invites);
        }
        sort_pending(collected)
    }

    fn collect_guild_listings(&self, guild_id: u64) -> (out: Vec<ActiveRelationship>)
        ensures
            out@.map_values(|a: ActiveRelationship| listing_view(a)) == guild_listings(
                self.model().rels,
                guild_id,
            ),
    {
        let ghost lv = |a: ActiveRelationship| listing_view(a);
        let n = self.relationships.len();
        let mut out: Vec<ActiveRelationship> = Vec::new();
        let mut i: usize = 0;
        proof {
            assert(out@.map_values(lv) =~= guild_listings(
                self.model().rels.subrange(0, 0),
                guild_id,
            ));
        }
        while i < n
            invariant
                lv == (|a: ActiveRelationship| listing_view(a)),
                n == self.model().rels.len(),
                i <= n,
                out@.map_values(lv) == guild_listings(
                    self.model().rels.subrange(0, i as int),
                    guild_id,
                ),
            decreases n - i,
        {
            let ghost pre = self.model().rels.subrange(0, i as int);
            let ghost os0 = out@.map_values(lv);
            proof {
                assert(self.model().rels[i as int] == rel_view(self.relationships@[i as int]));
            }
            let row = &self.relationships[i];
            if row.guild_id == guild_id && matches!(row.status, RelStatus::Active) {
                let entry = ActiveRelationship {
                    relationship_id: row.id,
                    relationship_type: row.relationship_type.clone(),
                    emoji: clone_opt_string(&row.emoji),
                    description: clone_opt_string(&row.description),
                };
                proof {
                    assert(listing_view(entry) == listing_of(self.model().rels[i as int]));
                }
                out.push(entry);
                proof {
                    assert(out@.map_values(lv) =~= os0.push(
                        listing_of(self.model().rels[i as int]),
                    ));
                }
            }
            i = i + 1;
            proof {
                assert(self.model().rels.subrange(0, i as int).drop_last() =~= pre);
                assert(self.model().rels.subrange(0, i as int).last() == self.model().rels[i - 1]);
            }
        }
        proof {
            assert(self.model().rels.subrange(0, n as int) =~= self.model().rels);
        }
        out
    }

    /// All active groups of this community, sorted alphabetically by type and
    /// then ascending by id, each with its active members ascending.
    pub fn list_active_relationship_groups(&self, guild_id: u64) -> (out: Vec<RelationshipGroup>)
        ensures
            out@.map_values(|g: RelationshipGroup| group_core_view(g)).to_multiset()
                == guild_listings(self.model().rels, guild_id).to_multiset(),
            sorted_listings(out@.map_values(|g: RelationshipGroup| group_core_view(g))),
            forall|k: int|
                0 <= k < out@.len() ==> (#[trigger] out@[k]).member_ids@.to_multiset()
                    == active_ids_of(self.model().members, out@[k].relationship_id).to_multiset()
                    && (forall|i: int, j: int|
                    0 <= i < j < out@[k].member_ids@.len() ==> out@[k].member_ids@[i]
                        <= out@[k].member_ids@[j]),
    {
        let ghost lv = |a: ActiveRelationship| listing_view(a);
        let ghost gcv = |g: RelationshipGroup| group_core_view(g);
        let mut v = sort_listings(self.collect_guild_listings(guild_id));
        let ghost svs = v@.map_values(lv);
        let mut out: Vec<RelationshipGroup> = Vec::new();
        proof {
            assert(out@.map_values(gcv) + v@.map_values(lv) =~= svs);
        }
        while v.len() > 0
            invariant
                lv == (|a: ActiveRelationship| listing_view(a)),
                gcv == (|g: RelationshipGroup| group_core_view(g)),
                svs.to_multiset() == guild_listings(self.model().rels, guild_id).to_multiset(),
                sorted_listings(svs),
                out@.map_values(gcv) + v@.map_values(lv) == svs,
                forall|k: int|
                    0 <= k < out@.len() ==> (#[trigger] out@[k]).member_ids@.to_multiset()
                        == active_ids_of(
                        self.model().members,
                        out@[k].relationship_id,
                    ).to_multiset() && (forall|i: int, j: int|
                        0 <= i < j < out@[k].member_ids@.len() ==> out@[k].member_ids@[i]
                            <= out@[k].member_ids@[j]),
            decreases v@.len(),
        {
            let ghost os0 = out@.map_values(gcv);
            let ghost vs0 = v@.map_values(lv);
            let a = v.remove(0);
            let member_ids = self.active_member_ids(a.relationship_id);
            let entry = RelationshipGroup {
                relationship_id: a.relationship_id,
                relationship_type: a.relationship_type,
                emoji: a.emoji,
                description: a.description,
                member_ids,
            };
            proof {
                assert(group_core_view(entry) == listing_view(a));
            }
            out.push(entry);
            proof {
                assert(v@.map_values(lv) =~= vs0.drop_first());
                assert(out@.map_values(gcv) =~= os0.push(vs0[0]));
                assert(out@.map_values(gcv) + v@.map_values(lv) =~= svs);
            }
        }
        proof {
            assert(v@.map_values(lv) =~= Seq::<ListingData>::empty());
            assert(out@.map_values(gcv) =~= svs);
        }
        out
    }
}

/// Closing one active membership lowers the active-member count by exactly
/// one (and by nothing where the user was not an active member).
proof fn lemma_mark_left_count(ms: Seq<MemberRow>, relationship_id: i64, user_id: u64, now: i64)
    requires
        forall|a: int, b: int|
            0 <= a < b < ms.len() ==> !((#[trigger] ms[a]).relationship_id == (
            #[trigger] ms[b]).relationship_id && ms[a].user_id == ms[b].user_id),
    ensures
        active_member_count(mark_left(ms, relationship_id, user_id, now), relationship_id)
            == active_member_count(ms, relationship_id) - (if member_active(
            ms,
            relationship_id,
            user_id,
        ) {
            1int
        } else {
            0
        }),
    decreases ms.len(),
{
    let ms1 = mark_left(ms, relationship_id, user_id, now);
    if ms.len() == 0 {
        assert(ms1 =~= Seq::<MemberRow>::empty());
        assert(!member_active(ms, relationship_id, user_id));
    } else {
        let pre = ms.drop_last();
        let last = ms.last();
        let match_last = last.relationship_id == relationship_id && last.user_id == user_id
            && last.left_at is None;
        lemma_mark_left_count(pre, relationship_id, user_id, now);
        assert(ms1.drop_last() =~= mark_left(pre, relationship_id, user_id, now));
        assert(ms1.last() == if match_last {
            MemberRow { left_at: Some(now), ..last }
        } else {
            last
        });
        if match_last {
            assert(member_active(ms, relationship_id, user_id));
            if member_active(pre, relationship_id, user_id) {
                let k = choose|k: int|
                    0 <= k < pre.len() && (#[trigger] pre[k]).relationship_id == relationship_id
                        && pre[k].user_id == user_id && pre[k].left_at is None;
                assert(ms[k] == pre[k]);
                assert(!(ms[k].relationship_id == ms[ms.len() - 1].relationship_id && ms[k].user_id
                    == ms[ms.len() - 1].user_id));
                assert(false);
            }
        } else {
            if member_active(ms, relationship_id, user_id) && !member_active(
                pre,
                relationship_id,
                user_id,
            ) {
                let k = choose|k: int|
                    0 <= k < ms.len() && (#[trigger] ms[k]).relationship_id == relationship_id
                        && ms[k].user_id == user_id && ms[k].left_at is None;
                if k < ms.len() - 1 {
                    assert(pre[k] == ms[k]);
                    assert(member_active(pre, relationship_id, user_id));
                }
                assert(false);
            }
            if member_active(pre, relationship_id, user_id) {
                let k = choose|k: int|
                    0 <= k < pre.len() && (#[trigger] pre[k]).relationship_id == relationship_id
                        && pre[k].user_id == user_id && pre[k].left_at is None;
                assert(ms[k] == pre[k]);
                assert(member_active(ms, relationship_id, user_id));
            }
        }
    }
}

/// Law: a group with exactly two active members ends when one of them
/// leaves; a group with three or more stays active.
pub proof fn lemma_leave_auto_dissolution(
    m: RelModel,
    relationship_id: i64,
    user_id: u64,
    now: i64,
)
    requires
        model_wf(m),
        member_active(m.members, relationship_id, user_id),
        rel_active(m.rels, relationship_id),
    ensures
        ({
            let (m1, ended) = leave_transition(m, relationship_id, user_id, now);
            &&& (active_member_count(m.members, relationship_id) == 2 ==> ended && !rel_active(
                m1.rels,
                relationship_id,
            ))
            &&& (active_member_count(m.members, relationship_id) >= 3 ==> !ended && rel_active(
                m1.rels,
                relationship_id,
            ))
        }),
{
    lemma_mark_left_count(m.members, relationship_id, user_id, now);
    let (m1, ended) = leave_transition(m, relationship_id, user_id, now);
    if active_member_count(m.members, relationship_id) == 2 {
        if rel_active(m1.rels, relationship_id) {
            let k = choose|k: int|
                0 <= k < m1.rels.len() && (#[trigger] m1.rels[k]).id == relationship_id
                    && m1.rels[k].status == RelStatus::Active;
            assert(m1.rels[k] == if m.rels[k].id == relationship_id && m.rels[k].status
                == RelStatus::Active {
                RelData { status: RelStatus::Ended, ended_at: Some(now), ..m.rels[k] }
            } else {
                m.rels[k]
            });
            assert(false);
        }
    }
}

/// Law: a caller with exactly one active group of the requested type gets
/// that group back from resolving a `make` without an explicit id, nothing
/// is created, and a repeated call resolves to the same group again.
pub proof fn lemma_make_reuses_single_group(
    m0: RelModel,
    m1: RelModel,
    m2: RelModel,
    r1: Result<MakeResolution, MakeRejection>,
    r2: Result<MakeResolution, MakeRejection>,
    guild_id: u64,
    caller_id: u64,
    ty: Seq<char>,
    emoji1: Option<Seq<char>>,
    description1: Option<Seq<char>>,
    emoji2: Option<Seq<char>>,
    description2: Option<Seq<char>>,
    t1: i64,
    t2: i64,
)
    requires
        caller_rel_ids(m0.rels, m0.members, guild_id, ty, caller_id).len() == 1,
        resolve_post(m0, m1, r1, guild_id, caller_id, ty, None, emoji1, description1, t1),
        resolve_post(m1, m2, r2, guild_id, caller_id, ty, None, emoji2, description2, t2),
    ensures
        m1 == m0,
        m2 == m0,
        r1 == Ok::<MakeResolution, MakeRejection>(
            MakeResolution {
                relationship_id: caller_rel_ids(m0.rels, m0.members, guild_id, ty, caller_id)[0],
                created_new_group: false,
            },
        ),
        r2 == r1,
{
}

/// Law: a caller in several active groups of one type is refused, never
/// guessed for: resolving a `make` without an explicit id rejects with the
/// candidate ids and changes nothing.
pub proof fn lemma_make_refuses_ambiguity(
    m0: RelModel,
    m1: RelModel,
    r: Result<MakeResolution, MakeRejection>,
    guild_id: u64,
    caller_id: u64,
    ty: Seq<char>,
    emoji: Option<Seq<char>>,
    description: Option<Seq<char>>,
    t: i64,
)
    requires
        caller_rel_ids(m0.rels, m0.members, guild_id, ty, caller_id).len() >= 2,
        resolve_post(m0, m1, r, guild_id, caller_id, ty, None, emoji, description, t),
    ensures
        m1 == m0,
        r matches Err(MakeRejection::Ambiguous(v)) && v@ == caller_rel_ids(
            m0.rels,
            m0.members,
            guild_id,
            ty,
            caller_id,
        ),
{
}

/// Law: ending by type is refused as well where both users share several
/// active groups of that type; nothing changes and the candidate ids are
/// reported.
pub proof fn lemma_end_refuses_ambiguity(
    m0: RelModel,
    m1: RelModel,
    r: EndOutcome,
    guild_id: u64,
    ty: Seq<char>,
    caller_id: u64,
    target_id: u64,
    t: i64,
)
    requires
        shared_rel_ids(m0.rels, m0.members, guild_id, ty, caller_id, target_id).len() >= 2,
        end_shared_post(m0, m1, r, guild_id, ty, caller_id, target_id, t),
    ensures
        m1 == m0,
        r matches EndOutcome::Ambiguous(v) && v@ == shared_rel_ids(
            m0.rels,
            m0.members,
            guild_id,
            ty,
            caller_id,
            target_id,
        ),
{
}

/// `rs1` keeps every ended group of `rs0` ended, in place, under its id.
pub open spec fn no_group_reopens(rs0: Seq<RelData>, rs1: Seq<RelData>) -> bool {
    &&& rs1.len() >= rs0.len()
    &&& forall|i: int|
        0 <= i < rs0.len() && (#[trigger] rs0[i]).status == RelStatus::Ended ==> rs1[i].id
            == rs0[i].id && rs1[i].status == RelStatus::Ended
}

/// Law: a group never reopens. Whatever any engine operation otherwise
/// does, every group that was ended before it stays ended after it.
pub proof fn lemma_groups_never_reopen(
    m: RelModel,
    relationship_id: i64,
    guild_id: u64,
    user_a: u64,
    user_b: u64,
    ty: Seq<char>,
    emoji: Option<Seq<char>>,
    description: Option<Seq<char>>,
    now: i64,
)
    ensures
        no_group_reopens(m.rels, create_transition(m, guild_id, user_a, ty, emoji, description, now).0.rels),
        no_group_reopens(m.rels, invite_transition(m, relationship_id, user_a, user_b, now).0.rels),
        no_group_reopens(m.rels, accept_transition(m, relationship_id, user_a, now).rels),
        no_group_reopens(m.rels, decline_transition(m, relationship_id, user_a, guild_id, now).0.rels),
        no_group_reopens(m.rels, leave_transition(m, relationship_id, user_a, now).0.rels),
{
}

/// Law: after a pending invite lands for `(group, invitee)`, a second invite
/// for the same pair is rejected as already pending and inserts nothing,
/// whoever sends it and whenever.
pub proof fn lemma_invite_exclusive(
    m: RelModel,
    relationship_id: i64,
    inviter_a: u64,
    invitee_id: u64,
    t1: i64,
    inviter_b: u64,
    t2: i64,
)
    requires
        !member_active(m.members, relationship_id, invitee_id),
        !pending_invite(m.invites, relationship_id, invitee_id),
    ensures
        ({
            let (m1, r1) = invite_transition(m, relationship_id, inviter_a, invitee_id, t1);
            let (m2, r2) = invite_transition(m1, relationship_id, inviter_b, invitee_id, t2);
            &&& r1 is None
            &&& pending_invite(m1.invites, relationship_id, invitee_id)
            &&& m2 == m1
            &&& r2 == Some(InviteRejection::AlreadyPending)
        }),
{
    let (m1, r1) = invite_transition(m, relationship_id, inviter_a, invitee_id, t1);
    assert(m1.invites.last().relationship_id == relationship_id && m1.invites.last().invitee_id
        == invitee_id && m1.invites.last().status == InviteStatus::Pending);
    assert(pending_invite(m1.invites, relationship_id, invitee_id));
}

/// The header line of a group in a listing: optional emoji, the type in
/// backticks, an optional description after a dash.
pub open spec fn group_header_spec(
    ty: Seq<char>,
    emoji: Option<Seq<char>>,
    description: Option<Seq<char>>,
) -> Seq<char> {
    let head = match emoji {
        Some(e) => e + seq![' '],
        None => Seq::empty(),
    };
    let base = head + seq!['`'] + ty + seq!['`'];
    match description {
        Some(d) => base + seq![' ', '-', ' '] + d,
        None => base,
    }
}

/// Renders a group's header line for listing replies.
pub fn format_group_header(
    relationship_type: &str,
    emoji: Option<&str>,
    description: Option<&str>,
) -> (r: String)
    ensures
        r@ == group_header_spec(
            relationship_type@,
            match emoji {
                Some(e) => Some(e@),
                None => None,
            },
            match description {
                Some(d) => Some(d@),
                None => None,
            },
        ),
{
    let mut base = String::new();
    match emoji {
        Some(e) => {
            base.append(e);
            base.append(" ");
            proof {
                reveal_strlit(" ");
                assert(base@ =~= e@ + seq![' ']);
            }
        },
        None => {},
    }
    base.append("`");
    base.append(relationship_type);
    base.append("`");
    proof {
        reveal_strlit("`");
    }
    match description {
        Some(d) => {
            base.append(" - ");
            base.append(d);
            proof {
                reveal_strlit(" - ");
                assert(base@ =~= group_header_spec(
                    relationship_type@,
                    match emoji {
                        Some(e) => Some(e@),
                        None => None,
                    },
                    Some(d@),
                ));
            }
        },
        None => {
            proof {
                assert(base@ =~= group_header_spec(
                    relationship_type@,
                    match emoji {
                        Some(e) => Some(e@),
                        None => None,
                    },
                    None::<Seq<char>>,
                ));
            }
        },
    }
    base
}

/// What resolving a `make` does and reports: with an explicit id the group
/// must be eligible; otherwise the caller's groups of the requested type
/// decide, and ambiguity is refused rather than guessed.
pub open spec fn resolve_post(
    m0: RelModel,
    m1: RelModel,
    r: Result<MakeResolution, MakeRejection>,
    guild_id: u64,
    caller_id: u64,
    ty: Seq<char>,
    explicit: Option<i64>,
    emoji: Option<Seq<char>>,
    description: Option<Seq<char>>,
    now: i64,
) -> bool {
    match explicit {
        Some(id) => {
            if rel_eligible(m0, id, guild_id, ty, caller_id) {
                m1 == m0 && r == Ok::<MakeResolution, MakeRejection>(
                    MakeResolution { relationship_id: id, created_new_group: false },
                )
            } else {
                m1 == m0 && (r matches Err(MakeRejection::NotEligible))
            }
        },
        None => {
            let ids = caller_rel_ids(m0.rels, m0.members, guild_id, ty, caller_id);
            if ids.len() > 1 {
                m1 == m0 && (r matches Err(MakeRejection::Ambiguous(v)) && v@ == ids)
            } else if ids.len() == 1 {
                m1 == m0 && r == Ok::<MakeResolution, MakeRejection>(
                    MakeResolution { relationship_id: ids[0], created_new_group: false },
                )
            } else {
                let (mc, new_id) = create_transition(
                    m0,
                    guild_id,
                    caller_id,
                    ty,
                    emoji,
                    description,
                    now,
                );
                &&& m1 == (RelModel {
                    members: upsert_member(mc.members, new_id, caller_id, now),
                    ..mc
                })
                &&& r == Ok::<MakeResolution, MakeRejection>(
                    MakeResolution { relationship_id: new_id, created_new_group: true },
                )
            }
        },
    }
}

/// What ending a shared group by type does and reports.
pub open spec fn end_shared_post(
    m0: RelModel,
    m1: RelModel,
    r: EndOutcome,
    guild_id: u64,
    ty: Seq<char>,
    caller_id: u64,
    target_id: u64,
    now: i64,
) -> bool {
    let ids = shared_rel_ids(m0.rels, m0.members, guild_id, ty, caller_id, target_id);
    if ids.len() == 0 {
        m1 == m0 && (r matches EndOutcome::NoneShared)
    } else if ids.len() > 1 {
        m1 == m0 && (r matches EndOutcome::Ambiguous(v) && v@ == ids)
    } else {
        &&& (r matches EndOutcome::Left { relationship_id, ended } && relationship_id == ids[0]
            && (m1, ended) == leave_transition(m0, ids[0], caller_id, now))
    }
}

/// What [`mark_pending_invites`] does to a single row.
pub open spec fn mark_one_invite(
    inv: InviteRow,
    relationship_id: i64,
    invitee_id: u64,
    status: InviteStatus,
    now: i64,
) -> InviteRow {
    if inv.relationship_id == relationship_id && inv.invitee_id == invitee_id && inv.status
        == InviteStatus::Pending {
        InviteRow { status, responded_at: Some(now), ..inv }
    } else {
        inv
    }
}

/// Under member-row uniqueness, no row but `ms[i]` carries its key.
proof fn lemma_member_distinct(ms: Seq<MemberRow>, i: int)
    requires
        forall|a: int, b: int|
            0 <= a < b < ms.len() ==> !((#[trigger] ms[a]).relationship_id == (
            #[trigger] ms[b]).relationship_id && ms[a].user_id == ms[b].user_id),
        0 <= i < ms.len(),
    ensures
        forall|j: int|
            0 <= j < ms.len() && j != i ==> !((#[trigger] ms[j]).relationship_id
                == ms[i].relationship_id && ms[j].user_id == ms[i].user_id),
{
    assert forall|j: int| 0 <= j < ms.len() && j != i implies !((#[trigger] ms[j]).relationship_id
        == ms[i].relationship_id && ms[j].user_id == ms[i].user_id) by {
        if j < i {
            assert(!(ms[j].relationship_id == ms[i].relationship_id && ms[j].user_id
                == ms[i].user_id));
        } else {
            assert(!(ms[i].relationship_id == ms[j].relationship_id && ms[i].user_id
                == ms[j].user_id));
        }
    }
}

/// Under ascending group ids, no row but `rs[i]` carries its id.
proof fn lemma_rel_id_distinct(rs: Seq<RelData>, i: int)
    requires
        forall|a: int, b: int|
            0 <= a < b < rs.len() ==> (#[trigger] rs[a]).id < (#[trigger] rs[b]).id,
        0 <= i < rs.len(),
    ensures
        forall|j: int| 0 <= j < rs.len() && j != i ==> (#[trigger] rs[j]).id != rs[i].id,
{
    assert forall|j: int| 0 <= j < rs.len() && j != i implies (#[trigger] rs[j]).id != rs[i].id by {
        if j < i {
            assert(rs[j].id < rs[i].id);
        } else {
            assert(rs[i].id < rs[j].id);
        }
    }
}

} // verus!
