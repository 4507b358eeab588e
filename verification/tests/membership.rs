use starling::keys::SecretKey;
use starling::membership::{
    MemberRole, MembershipError, MembershipMutationBodyV1, MembershipOperationV1,
    MembershipScopeId, MembershipState, SignedMembershipMutationV1,
};
use starling::protocol::id::{FlockId, RoostId};

fn scope(byte: u8) -> MembershipScopeId {
    MembershipScopeId::Flock(FlockId([byte; 32]))
}

fn mutation(
    state: &MembershipState,
    key: &SecretKey,
    operation: MembershipOperationV1,
    epoch: u64,
) -> SignedMembershipMutationV1 {
    MembershipMutationBodyV1 {
        scope: state.scope(),
        revision: state.revision() + 1,
        previous_hash: state.head_hash(),
        actor: key.public(),
        operation,
        effective_key_epoch: epoch,
    }
    .sign(key)
    .unwrap()
}

#[test]
fn folds_history_and_tracks_readded_generations() {
    let admin = SecretKey::generate();
    let member = SecretKey::generate();
    let mut state = MembershipState::genesis(scope(1), admin.public());
    let m = mutation(
        &state,
        &admin,
        MembershipOperationV1::Add { member: member.public(), role: MemberRole::Member },
        0,
    );
    state.apply(&m).unwrap();
    let m = mutation(&state, &admin, MembershipOperationV1::Remove { member: member.public() }, 1);
    state.apply(&m).unwrap();
    assert!(state.authorized_at(&member.public(), 1, 0));
    assert!(!state.authorized_at(&member.public(), 2, 1));
    let m = mutation(
        &state,
        &admin,
        MembershipOperationV1::Add { member: member.public(), role: MemberRole::Member },
        1,
    );
    state.apply(&m).unwrap();
    assert_eq!(state.member(&member.public()).unwrap().generation, 1);
    assert_eq!(state.authorization_history(&member.public()).len(), 2);
}

#[test]
fn rejects_tamper_fork_cross_scope_unauthorized_and_final_admin_removal() {
    let admin = SecretKey::generate();
    let outsider = SecretKey::generate();
    let member = SecretKey::generate();
    let state = MembershipState::genesis(scope(2), admin.public());
    let valid = mutation(
        &state,
        &admin,
        MembershipOperationV1::Add { member: member.public(), role: MemberRole::Member },
        0,
    );
    let mut tampered = valid.clone();
    tampered.body.effective_key_epoch = 1;
    assert!(tampered.verify().is_err());
    let mut fork = valid.clone();
    fork.body.previous_hash = Some([9; 32]);
    assert!(state.clone().apply(&fork).is_err());
    let mut cross_scope = valid.clone();
    cross_scope.body.scope = scope(3);
    assert!(state.clone().apply(&cross_scope).is_err());
    let unauthorized = MembershipMutationBodyV1 {
        actor: outsider.public(),
        ..valid.body.clone()
    }
    .sign(&outsider)
    .unwrap();
    assert!(state.clone().apply(&unauthorized).is_err());
    assert!(state
        .clone()
        .apply(&mutation(&state, &admin, MembershipOperationV1::Remove { member: admin.public() }, 1))
        .is_err());
}

#[test]
fn supports_roost_scope_and_admin_transfer() {
    let admin = SecretKey::generate();
    let successor = SecretKey::generate();
    let scope = MembershipScopeId::Roost(RoostId([4; 32]));
    let mut state = MembershipState::genesis(scope, admin.public());
    let m = mutation(
        &state,
        &admin,
        MembershipOperationV1::Add { member: successor.public(), role: MemberRole::Member },
        0,
    );
    state.apply(&m).unwrap();
    let m = mutation(&state, &admin, MembershipOperationV1::TransferAdmin { to: successor.public() }, 0);
    state.apply(&m).unwrap();
    assert!(!state.is_admin(&admin.public()));
    assert!(state.is_admin(&successor.public()));
}

#[test]
fn membership_refusals_name_their_reason() {
    let admin = SecretKey::generate();
    let member = SecretKey::generate();
    let mut state = MembershipState::genesis(scope(5), admin.public());
    let add = MembershipOperationV1::Add { member: member.public(), role: MemberRole::Member };
    let mut wrong_revision = mutation(&state, &admin, add, 0);
    wrong_revision.body.revision = 5;
    let wrong_revision = wrong_revision.body.sign(&admin).unwrap();
    assert_eq!(state.clone().apply(&wrong_revision), Err(MembershipError::RevisionNotNext));
    assert_eq!(state.clone().apply(&mutation(&state, &admin, add, 1)), Err(MembershipError::NonRemovalEpochChanged));
    state.apply(&mutation(&state, &admin, add, 0)).unwrap();
    assert_eq!(state.clone().apply(&mutation(&state, &admin, add, 0)), Err(MembershipError::AlreadyActive));
    let remove = MembershipOperationV1::Remove { member: member.public() };
    assert_eq!(state.clone().apply(&mutation(&state, &admin, remove, 0)), Err(MembershipError::RemovalEpochMismatch));
    assert_eq!(
        state.clone().apply(&mutation(&state, &member, add, 0)),
        Err(MembershipError::ActorNotAdmin)
    );
    assert_eq!(
        state.clone().apply(&mutation(&state, &admin, MembershipOperationV1::TransferAdmin { to: admin.public() }, 0)),
        Err(MembershipError::SameEndpoints)
    );
    let body = mutation(&state, &admin, add, 0).body;
    assert_eq!(body.sign(&member).err(), Some(MembershipError::ActorNotSigner));
    assert_eq!(state.revision(), 1);
    assert_eq!(state.key_epoch(), 0);
    assert!(state.snapshot(1).is_some());
    assert!(state.snapshot(2).is_none());
}

#[test]
fn fold_replays_a_chain() {
    let admin = SecretKey::generate();
    let member = SecretKey::generate();
    let mut state = MembershipState::genesis(scope(6), admin.public());
    let first = mutation(
        &state,
        &admin,
        MembershipOperationV1::Add { member: member.public(), role: MemberRole::Admin },
        0,
    );
    state.apply(&first).unwrap();
    let second = mutation(&state, &admin, MembershipOperationV1::Remove { member: admin.public() }, 1);
    state.apply(&second).unwrap();
    let folded = MembershipState::fold(scope(6), admin.public(), &vec![first, second]).unwrap();
    assert_eq!(folded.revision(), 2);
    assert_eq!(folded.head_hash(), state.head_hash());
    assert!(folded.is_admin(&member.public()));
    assert!(!folded.is_admin(&admin.public()));
    assert_eq!(folded.key_epoch(), 1);
}
