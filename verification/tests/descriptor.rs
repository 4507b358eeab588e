use starling::descriptor::{
    derive_topic_id_v1, DescriptorError, DescriptorState, FlockDescriptorBodyV1,
    SignedFlockDescriptorV1, TopicId, MAX_BOOTSTRAP_PEERS,
};
use starling::keys::{EndpointId, SecretKey};
use starling::membership::{
    MemberRole, MembershipMutationBodyV1, MembershipOperationV1, MembershipScopeId,
    MembershipState, SignedMembershipMutationV1,
};
use starling::protocol::id::FlockId;

fn membership(flock: FlockId, admin: EndpointId) -> MembershipState {
    MembershipState::genesis(MembershipScopeId::Flock(flock), admin)
}

fn mutation(
    state: &MembershipState,
    key: &SecretKey,
    operation: MembershipOperationV1,
) -> SignedMembershipMutationV1 {
    MembershipMutationBodyV1 {
        scope: state.scope(),
        revision: state.revision() + 1,
        previous_hash: state.head_hash(),
        actor: key.public(),
        operation,
        effective_key_epoch: state.key_epoch(),
    }
    .sign(key)
    .unwrap()
}

fn descriptor(
    key: &SecretKey,
    state: &MembershipState,
    revision: u64,
    previous_hash: Option<[u8; 32]>,
    topic_id: TopicId,
    key_epoch: u64,
) -> SignedFlockDescriptorV1 {
    let MembershipScopeId::Flock(flock) = state.scope() else {
        panic!("flock scope")
    };
    FlockDescriptorBodyV1 {
        flock,
        descriptor_revision: revision,
        previous_hash,
        topic_id,
        membership_revision: state.revision(),
        key_epoch,
        bootstrap: vec![key.public()],
    }
    .sign(key)
    .unwrap()
}

#[test]
fn topic_rotation_preserves_stable_flock() {
    let admin = SecretKey::generate();
    let flock = FlockId([1; 32]);
    let membership = membership(flock, admin.public());
    let first_topic = derive_topic_id_v1(&flock);
    let first = descriptor(&admin, &membership, 0, None, first_topic, 0);
    let mut state = DescriptorState::genesis(first, &membership).unwrap();
    let rotated_topic = TopicId::from_bytes([9; 32]);
    let next = descriptor(&admin, &membership, 1, Some(state.head_hash()), rotated_topic, 0);
    state.apply(next, &membership).unwrap();
    assert_eq!(state.flock(), flock);
    assert_eq!(state.topic_id(), rotated_topic);
    assert_ne!(first_topic, rotated_topic);
}

#[test]
fn rejects_bad_authority_tampering_and_rollbacks() {
    let admin = SecretKey::generate();
    let outsider = SecretKey::generate();
    let flock = FlockId([2; 32]);
    let membership = membership(flock, admin.public());
    let first = descriptor(&admin, &membership, 0, None, derive_topic_id_v1(&flock), 0);
    let mut state = DescriptorState::genesis(first, &membership).unwrap();
    let unauthorized = descriptor(
        &outsider,
        &membership,
        1,
        Some(state.head_hash()),
        TopicId::from_bytes([3; 32]),
        0,
    );
    assert!(state.apply(unauthorized, &membership).is_err());
    let mut tampered = descriptor(
        &admin,
        &membership,
        1,
        Some(state.head_hash()),
        TopicId::from_bytes([4; 32]),
        0,
    );
    tampered.body.topic_id = TopicId::from_bytes([5; 32]);
    assert!(state.apply(tampered, &membership).is_err());

    let next_admin = SecretKey::generate();
    let mut advanced = membership.clone();
    let m = mutation(
        &advanced,
        &admin,
        MembershipOperationV1::Add {
            member: next_admin.public(),
            role: MemberRole::Admin,
        },
    );
    advanced.apply(&m).unwrap();
    let mut rollback = descriptor(
        &admin,
        &advanced,
        1,
        Some(state.head_hash()),
        TopicId::from_bytes([6; 32]),
        0,
    );
    rollback.body.membership_revision = 0;
    assert!(state.apply(rollback, &advanced).is_err());
}

#[test]
fn enforces_canonical_bounded_bootstrap() {
    let key = SecretKey::generate();
    let flock = FlockId([7; 32]);
    let state = membership(flock, key.public());
    let mut body = descriptor(&key, &state, 0, None, derive_topic_id_v1(&flock), 0).body;
    body.bootstrap = vec![key.public(), key.public()];
    assert!(body.canonical_bytes().is_err());
    body.bootstrap = (0..=MAX_BOOTSTRAP_PEERS)
        .map(|_| SecretKey::generate().public())
        .collect();
    assert!(body.canonical_bytes().is_err());
}

#[test]
fn descriptor_refusals_name_their_reason() {
    let admin = SecretKey::generate();
    let flock = FlockId([3; 32]);
    let membership = membership(flock, admin.public());
    let first = descriptor(&admin, &membership, 1, None, derive_topic_id_v1(&flock), 0);
    assert_eq!(
        DescriptorState::genesis(first, &membership).err(),
        Some(DescriptorError::NonZeroGenesisRevision)
    );
    let first = descriptor(&admin, &membership, 0, Some([1; 32]), derive_topic_id_v1(&flock), 0);
    assert_eq!(
        DescriptorState::genesis(first, &membership).err(),
        Some(DescriptorError::GenesisHasPrevious)
    );
    let other = membership_of_other(&admin);
    let first = descriptor(&admin, &membership, 0, None, derive_topic_id_v1(&flock), 0);
    assert_eq!(
        DescriptorState::genesis(first, &other).err(),
        Some(DescriptorError::ScopeMismatch)
    );
    let mut unsorted = descriptor(&admin, &membership, 0, None, derive_topic_id_v1(&flock), 0).body;
    let a = SecretKey::from_bytes(&[1; 32]).public();
    let b = SecretKey::from_bytes(&[2; 32]).public();
    unsorted.bootstrap = if a.0 < b.0 { vec![b, a] } else { vec![a, b] };
    assert_eq!(unsorted.canonical_bytes().err(), Some(DescriptorError::BootstrapNotSorted));
}

fn membership_of_other(admin: &SecretKey) -> MembershipState {
    membership(FlockId([4; 32]), admin.public())
}

#[test]
fn topic_id_is_derived_from_the_flock() {
    assert_eq!(derive_topic_id_v1(&FlockId([1; 32])), derive_topic_id_v1(&FlockId([1; 32])));
    assert_ne!(derive_topic_id_v1(&FlockId([1; 32])), derive_topic_id_v1(&FlockId([2; 32])));
}
