//! The relationship engine driven through whole scenarios: group creation,
//! invites, acceptance, listings, ambiguity refusal, and auto-dissolution.

use blahaj::relationship::{
    EndOutcome, InviteRejection, MakeRejection, RelationshipStore,
};

const GUILD: u64 = 77;
const U1: u64 = 1001;
const U2: u64 = 1002;
const U3: u64 = 1003;

/// Creates a group of `kind` owned by `creator` and lets every user in
/// `joiners` accept an invite into it; returns the group id.
fn group_with(
    store: &mut RelationshipStore,
    kind: &str,
    creator: u64,
    joiners: &[u64],
    t: i64,
) -> i64 {
    let res = store
        .resolve_relationship_for_make_at(GUILD, creator, kind, None, None, None, t)
        .unwrap();
    for (k, joiner) in joiners.iter().enumerate() {
        let t = t + 1 + k as i64;
        assert_eq!(
            store.try_create_invite_at(res.relationship_id, creator, *joiner, t),
            None
        );
        assert!(store.has_pending_invite(res.relationship_id, *joiner, GUILD));
        store.accept_invite_at(res.relationship_id, *joiner, t);
    }
    res.relationship_id
}

#[test]
fn make_accept_and_list_end_to_end() {
    let mut store = RelationshipStore::new();

    // U1 opens a marriage: a fresh group with U1 as first member.
    let res = store
        .resolve_relationship_for_make_at(GUILD, U1, "marriage", None, None, None, 100)
        .unwrap();
    assert!(res.created_new_group);
    assert_eq!(res.relationship_id, 1);

    // The invite lands and U2 accepts it.
    assert_eq!(store.try_create_invite_at(1, U1, U2, 101), None);
    assert!(store.has_pending_invite(1, U2, GUILD));
    store.accept_invite_at(1, U2, 102);
    assert!(!store.has_pending_invite(1, U2, GUILD));

    // Both are active members and both listings show group #1.
    assert!(store.is_active_member(1, GUILD, U1));
    assert!(store.is_active_member(1, GUILD, U2));
    assert_eq!(store.active_member_ids(1), vec![U1, U2]);
    for user in [U1, U2] {
        let listed = store.list_active_relationships_for_user(GUILD, user);
        assert_eq!(listed.len(), 1);
        assert_eq!(listed[0].relationship_id, 1);
        assert_eq!(listed[0].relationship_type, "marriage");
    }
}

#[test]
fn make_reuses_the_single_existing_group() {
    let mut store = RelationshipStore::new();
    let first = store
        .resolve_relationship_for_make_at(GUILD, U1, "marriage", None, None, None, 10)
        .unwrap();
    assert!(first.created_new_group);

    // Two later invocations for different invitees resolve to the same group.
    let again = store
        .resolve_relationship_for_make_at(GUILD, U1, "marriage", None, None, None, 11)
        .unwrap();
    assert!(!again.created_new_group);
    assert_eq!(again.relationship_id, first.relationship_id);
    let again = store
        .resolve_relationship_for_make_at(GUILD, U1, "marriage", None, None, None, 12)
        .unwrap();
    assert!(!again.created_new_group);
    assert_eq!(again.relationship_id, first.relationship_id);
}

#[test]
fn ambiguity_is_refused_not_guessed() {
    let mut store = RelationshipStore::new();
    let g1 = group_with(&mut store, "friend", U1, &[U2], 10);
    let g2 = group_with(&mut store, "friend", U3, &[U1, U2], 20);

    // U1 belongs to two friend groups: make without an id is refused.
    match store.resolve_relationship_for_make_at(GUILD, U1, "friend", None, None, None, 30) {
        Err(MakeRejection::Ambiguous(ids)) => assert_eq!(ids, vec![g1, g2]),
        other => panic!("expected an ambiguity rejection, got {:?}", other),
    }

    // Ending by type is equally refused while both groups hold U1 and U2.
    match store.end_shared_at(GUILD, "friend", U1, U2, 31) {
        EndOutcome::Ambiguous(ids) => assert_eq!(ids, vec![g1, g2]),
        other => panic!("expected an ambiguity rejection, got {:?}", other),
    }
}

#[test]
fn explicit_id_picks_a_group_or_is_rejected() {
    let mut store = RelationshipStore::new();
    let g1 = group_with(&mut store, "friend", U1, &[U2], 10);
    let g2 = group_with(&mut store, "friend", U3, &[U1], 20);

    let res = store
        .resolve_relationship_for_make_at(GUILD, U1, "friend", Some(g2), None, None, 30)
        .unwrap();
    assert!(!res.created_new_group);
    assert_eq!(res.relationship_id, g2);

    // Wrong type, foreign community, or a group the caller is not in: refused.
    assert_eq!(
        store.resolve_relationship_for_make_at(GUILD, U1, "marriage", Some(g1), None, None, 31),
        Err(MakeRejection::NotEligible)
    );
    assert_eq!(
        store.resolve_relationship_for_make_at(GUILD, U2, "friend", Some(g2), None, None, 32),
        Err(MakeRejection::NotEligible)
    );
    assert_eq!(
        store.resolve_relationship_for_make_at(GUILD + 1, U1, "friend", Some(g1), None, None, 33),
        Err(MakeRejection::NotEligible)
    );
}

#[test]
fn duplicate_invites_and_member_invites_are_rejected() {
    let mut store = RelationshipStore::new();
    let g = group_with(&mut store, "marriage", U1, &[], 10);

    assert_eq!(store.try_create_invite_at(g, U1, U2, 11), None);
    // A second invite for the same pair reports the pending one.
    assert_eq!(
        store.try_create_invite_at(g, U1, U2, 12),
        Some(InviteRejection::AlreadyPending)
    );
    assert_eq!(
        store.try_create_invite_at(g, U3, U2, 13),
        Some(InviteRejection::AlreadyPending)
    );
    // An active member cannot be invited again.
    assert_eq!(
        store.try_create_invite_at(g, U2, U1, 14),
        Some(InviteRejection::AlreadyMember)
    );
}

#[test]
fn decline_flips_the_pending_invite_exactly_once() {
    let mut store = RelationshipStore::new();
    let g = group_with(&mut store, "marriage", U1, &[], 10);
    assert_eq!(store.try_create_invite_at(g, U1, U2, 11), None);

    // The wrong community declines nothing.
    assert_eq!(store.decline_invite_at(g, U2, GUILD + 1, 12), 0);
    assert!(store.has_pending_invite(g, U2, GUILD));

    assert_eq!(store.decline_invite_at(g, U2, GUILD, 13), 1);
    assert!(!store.has_pending_invite(g, U2, GUILD));
    assert!(!store.is_active_member(g, GUILD, U2));
    // Nothing is pending any more, so declining again changes nothing.
    assert_eq!(store.decline_invite_at(g, U2, GUILD, 14), 0);
}

#[test]
fn leaving_a_two_member_group_dissolves_it() {
    let mut store = RelationshipStore::new();
    let g = group_with(&mut store, "marriage", U1, &[U2], 10);

    let ended = store.leave_relationship_at(g, U2, 20);
    assert!(ended);
    assert!(!store.is_active_member(g, GUILD, U1));
    assert!(store.list_active_relationships_for_user(GUILD, U1).is_empty());

    // The ended group never reopens: it is no longer eligible for `make`.
    assert_eq!(
        store.resolve_relationship_for_make_at(GUILD, U1, "marriage", Some(g), None, None, 21),
        Err(MakeRejection::NotEligible)
    );
}

#[test]
fn leaving_a_three_member_group_keeps_it_active() {
    let mut store = RelationshipStore::new();
    let g = group_with(&mut store, "friend", U1, &[U2, U3], 10);

    let ended = store.leave_relationship_at(g, U3, 20);
    assert!(!ended);
    assert!(store.is_active_member(g, GUILD, U1));
    assert_eq!(store.active_member_ids(g), vec![U1, U2]);
}

#[test]
fn leaving_without_membership_changes_nothing() {
    let mut store = RelationshipStore::new();
    let g = group_with(&mut store, "marriage", U1, &[U2], 10);
    assert!(!store.leave_relationship_at(g, U3, 20));
    assert_eq!(store.active_member_ids(g), vec![U1, U2]);
}

#[test]
fn end_shared_leaves_the_single_shared_group() {
    let mut store = RelationshipStore::new();
    let g = group_with(&mut store, "marriage", U1, &[U2], 10);

    match store.end_shared_at(GUILD, "marriage", U1, U2, 20) {
        EndOutcome::Left { relationship_id, ended } => {
            assert_eq!(relationship_id, g);
            assert!(ended);
        },
        other => panic!("expected to leave the shared group, got {:?}", other),
    }
    assert_eq!(
        store.end_shared_at(GUILD, "marriage", U1, U2, 21),
        EndOutcome::NoneShared
    );
}

#[test]
fn rejoining_after_leaving_revives_the_membership() {
    let mut store = RelationshipStore::new();
    let g = group_with(&mut store, "friend", U1, &[U2, U3], 10);
    assert!(!store.leave_relationship_at(g, U3, 20));
    assert!(!store.is_active_member(g, GUILD, U3));

    assert_eq!(store.try_create_invite_at(g, U1, U3, 21), None);
    store.accept_invite_at(g, U3, 22);
    assert!(store.is_active_member(g, GUILD, U3));
    assert_eq!(store.active_member_ids(g), vec![U1, U2, U3]);
}

#[test]
fn listings_sort_by_type_then_id_and_members_ascend() {
    let mut store = RelationshipStore::new();
    let zeta = group_with(&mut store, "zeta-pal", U1, &[U3, U2], 10);
    let alpha = group_with(&mut store, "alpha-pal", U1, &[U2], 20);

    let listed = store.list_active_relationships_for_user(GUILD, U1);
    assert_eq!(listed.len(), 2);
    assert_eq!(listed[0].relationship_type, "alpha-pal");
    assert_eq!(listed[0].relationship_id, alpha);
    assert_eq!(listed[1].relationship_type, "zeta-pal");
    assert_eq!(listed[1].relationship_id, zeta);

    let groups = store.list_active_relationship_groups(GUILD);
    assert_eq!(groups.len(), 2);
    assert_eq!(groups[0].relationship_type, "alpha-pal");
    assert_eq!(groups[0].member_ids, vec![U1, U2]);
    assert_eq!(groups[1].relationship_type, "zeta-pal");
    assert_eq!(groups[1].member_ids, vec![U1, U2, U3]);
}

#[test]
fn inbox_lists_pending_invites_with_group_details() {
    let mut store = RelationshipStore::new();
    let zeta = group_with(&mut store, "zeta-pal", U1, &[], 10);
    let alpha = group_with(&mut store, "alpha-pal", U3, &[], 20);
    assert_eq!(store.try_create_invite_at(zeta, U1, U2, 30), None);
    assert_eq!(store.try_create_invite_at(alpha, U3, U2, 31), None);

    let inbox = store.list_pending_invites_for_user(GUILD, U2);
    assert_eq!(inbox.len(), 2);
    assert_eq!(inbox[0].relationship_type, "alpha-pal");
    assert_eq!(inbox[0].relationship_id, alpha);
    assert_eq!(inbox[0].inviter_id, U3);
    assert_eq!(inbox[0].created_at, 31);
    assert_eq!(inbox[1].relationship_type, "zeta-pal");
    assert_eq!(inbox[1].relationship_id, zeta);
    assert_eq!(inbox[1].inviter_id, U1);

    // A declined invite leaves the inbox; an ended group's invite does too.
    assert_eq!(store.decline_invite_at(alpha, U2, GUILD, 40), 1);
    assert!(store.leave_relationship_at(zeta, U1, 41));
    assert!(store.list_pending_invites_for_user(GUILD, U2).is_empty());
}

#[test]
fn clock_backed_operations_behave_like_their_timed_cores() {
    let mut store = RelationshipStore::new();
    let res = store
        .resolve_relationship_for_make(GUILD, U1, "marriage", None, None, None)
        .unwrap();
    assert!(res.created_new_group);
    assert_eq!(store.try_create_invite(res.relationship_id, U1, U2), None);
    store.accept_invite(res.relationship_id, U2);
    assert!(store.is_active_member(res.relationship_id, GUILD, U2));
    assert!(store.leave_relationship(res.relationship_id, U2));
    assert_eq!(
        store.end_shared(GUILD, "marriage", U1, U2),
        EndOutcome::NoneShared
    );
    assert_eq!(store.decline_invite(res.relationship_id, U2, GUILD), 0);
}
