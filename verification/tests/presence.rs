use std::time::Duration;

use starling::keys::SecretKey;
use starling::membership::{MembershipScopeId, MembershipState};
use starling::presence::{PresenceError, PresenceLeaseBodyV1, PresenceTracker, SignedPresenceLeaseV1};
use starling::protocol::id::{FlockId, SpaceId};

fn signed(key: &SecretKey, space: SpaceId, sequence: u64, issued: i64, expiry: i64) -> SignedPresenceLeaseV1 {
    PresenceLeaseBodyV1 {
        space,
        endpoint: key.public(),
        sequence,
        issued_unix_ms: issued,
        expiry_unix_ms: expiry,
    }
    .sign(key)
    .unwrap()
}

#[test]
fn validates_signature_duration_skew_and_expiry() {
    let key = SecretKey::generate();
    let space = SpaceId::Flock(FlockId::random());
    assert_eq!(
        signed(&key, space, 1, 1_000, 2_000).verify(1_000, 0).unwrap(),
        Duration::from_secs(1)
    );
    assert!(signed(&key, space, 1, 1_000, 61_001).verify(1_000, 0).is_err());
    assert!(signed(&key, space, 1, 2_000, 3_000).verify(1_000, 10).is_err());
    assert!(signed(&key, space, 1, 0, 1_000).verify(1_000, 0).is_err());
    let mut tampered = signed(&key, space, 1, 1_000, 2_000);
    tampered.body.sequence = 2;
    assert!(tampered.verify(1_000, 0).is_err());
}

#[test]
fn replay_membership_and_spaces_are_enforced() {
    let member = SecretKey::generate();
    let outsider = SecretKey::generate();
    let first = FlockId::random();
    let second = FlockId::random();
    let first_space = SpaceId::Flock(first);
    let second_space = SpaceId::Flock(second);
    let first_membership = MembershipState::genesis(MembershipScopeId::Flock(first), member.public());
    let second_membership = MembershipState::genesis(MembershipScopeId::Flock(second), member.public());
    let mut tracker = PresenceTracker::default();
    tracker
        .accept(&signed(&member, first_space, 2, 1_000, 2_000), &first_membership, 1_000, 0, 0)
        .unwrap();
    assert!(tracker
        .accept(&signed(&member, first_space, 2, 1_000, 2_000), &first_membership, 1_000, 0, 0)
        .is_err());
    tracker
        .accept(&signed(&member, second_space, 1, 1_000, 2_000), &second_membership, 1_000, 0, 0)
        .unwrap();
    assert!(tracker
        .accept(&signed(&outsider, first_space, 3, 1_000, 2_000), &first_membership, 1_000, 0, 0)
        .is_err());
}

#[test]
fn monotonic_deadline_expires_without_losing_replay_state() {
    let member = SecretKey::generate();
    let flock = FlockId::random();
    let space = SpaceId::Flock(flock);
    let membership = MembershipState::genesis(MembershipScopeId::Flock(flock), member.public());
    let mut tracker = PresenceTracker::default();
    let start: u64 = 0;
    tracker
        .accept(&signed(&member, space, 1, 1_000, 2_000), &membership, 1_000, 0, 0)
        .unwrap();
    assert!(tracker.live(space, &member.public(), start).is_some());
    let later: u64 = start + 2_000;
    tracker.expire(later);
    assert!(tracker.live(space, &member.public(), later).is_none());
    assert!(tracker
        .accept(&signed(&member, space, 1, 1_000, 2_000), &membership, 1_000, 0, 0)
        .is_err());
}

#[test]
fn presence_refusals_name_their_reason() {
    let member = SecretKey::generate();
    let flock = FlockId::random();
    let space = SpaceId::Flock(flock);
    let membership = MembershipState::genesis(MembershipScopeId::Flock(flock), member.public());
    let lease = signed(&member, space, 1, 1_000, 2_000);
    assert_eq!(lease.verify(2_000, 0).err(), Some(PresenceError::Expired));
    assert_eq!(lease.verify_remaining_ms(1_500, 0), Ok(500));
    let mut tracker = PresenceTracker::new();
    tracker.accept(&lease, &membership, 1_000, 0, 0).unwrap();
    assert_eq!(
        tracker.accept(&lease, &membership, 1_000, 0, 0).err(),
        Some(PresenceError::Replay)
    );
    let other_space = SpaceId::Flock(FlockId::random());
    let wrong = signed(&member, other_space, 2, 1_000, 2_000);
    assert!(tracker.accept(&wrong, &membership, 1_000, 0, 0).is_err());
}

#[test]
fn lease_deadline_follows_the_monotonic_clock() {
    let member = SecretKey::generate();
    let flock = FlockId::random();
    let space = SpaceId::Flock(flock);
    let membership = MembershipState::genesis(MembershipScopeId::Flock(flock), member.public());
    let mut tracker = PresenceTracker::new();
    let live = *tracker
        .accept(&signed(&member, space, 1, 1_000, 2_000), &membership, 1_500, 0, 10_000)
        .unwrap();
    assert_eq!(live.deadline, 10_500);
    assert_eq!(live.sequence, 1);
    assert!(tracker.live(space, &member.public(), 10_499).is_some());
    assert!(tracker.live(space, &member.public(), 10_500).is_none());
    tracker.expire(10_400);
    assert_eq!(tracker.live(space, &member.public(), 10_400).map(|l| l.deadline), Some(10_500));
    tracker.expire(10_600);
    assert!(tracker.live(space, &member.public(), 10_600).is_none());
    let next = *tracker
        .accept(&signed(&member, space, 2, 1_000, 2_000), &membership, 1_000, 0, 20_000)
        .unwrap();
    assert_eq!(next.deadline, 21_000);
    assert_eq!(starling::presence::lease_deadline(u64::MAX - 5, 10), u64::MAX);
}

fn add_member(state: &mut MembershipState, admin: &SecretKey, member: &SecretKey) {
    let m = starling::membership::MembershipMutationBodyV1 {
        scope: state.scope(),
        revision: state.revision() + 1,
        previous_hash: state.head_hash(),
        actor: admin.public(),
        operation: starling::membership::MembershipOperationV1::Add {
            member: member.public(),
            role: starling::membership::MemberRole::Member,
        },
        effective_key_epoch: state.key_epoch(),
    }
    .sign(admin)
    .unwrap();
    state.apply(&m).unwrap();
}

#[test]
fn a_member_at_the_current_revision_is_accepted_within_the_window() {
    let admin = SecretKey::generate();
    let newcomer = SecretKey::generate();
    let outsider = SecretKey::generate();
    let flock = FlockId::random();
    let space = SpaceId::Flock(flock);
    let mut membership = MembershipState::genesis(MembershipScopeId::Flock(flock), admin.public());
    add_member(&mut membership, &admin, &SecretKey::generate());
    add_member(&mut membership, &admin, &SecretKey::generate());
    add_member(&mut membership, &admin, &newcomer);
    assert_eq!(membership.revision(), 3);
    assert!(!membership.authorized_at(&newcomer.public(), 1, 0));
    let mut tracker = PresenceTracker::new();
    assert!(tracker
        .accept(&signed(&newcomer, space, 1, 1_000, 2_000), &membership, 1_000, 0, 0)
        .is_ok());
    assert!(tracker
        .accept(&signed(&admin, space, 1, 1_000, 2_000), &membership, 1_000, 0, 0)
        .is_ok());
    assert_eq!(
        tracker
            .accept(&signed(&outsider, space, 1, 1_000, 2_000), &membership, 1_000, 0, 0)
            .err(),
        Some(PresenceError::NotCurrentMember)
    );
}

#[test]
fn verified_lease_duration_is_its_remaining_time() {
    let key = SecretKey::generate();
    let space = SpaceId::Flock(FlockId::random());
    assert_eq!(
        signed(&key, space, 1, 1_000, 2_500).verify(1_250, 0).unwrap(),
        Duration::from_millis(1_250)
    );
}
