use starling::call::{saturating_add_i64, saturating_sub_i64};
use starling::call::{
    CallError, CallSignalBodyV1, CallSignalV1, MediaCapabilities, MAX_CALL_SIGNAL_SECS,
};
use starling::keys::SecretKey;
use starling::membership::{
    MemberRole, MembershipMutationBodyV1, MembershipOperationV1, MembershipScopeId, MembershipState,
};
use starling::protocol::id::{CallId, FlockId, SpaceId};

fn fixture_membership(key: &SecretKey) -> MembershipState {
    MembershipState::genesis(MembershipScopeId::Flock(FlockId::random()), key.public())
}

fn fixture_body(key: &SecretKey) -> CallSignalBodyV1 {
    CallSignalBodyV1 {
        sender: key.public(),
        call_id: CallId::random(),
        space: SpaceId::Flock(FlockId::random()),
        media: MediaCapabilities {
            send_voice: true,
            recv_voice: true,
            send_video: false,
            recv_video: false,
        },
        membership_revision: 0,
        issued_unix_ms: 1_000,
        expiry_unix_ms: 2_000,
    }
}

fn fixture_signal(key: &SecretKey) -> CallSignalV1 {
    CallSignalV1::Create(fixture_body(key))
}

#[test]
fn all_variants_sign_and_verify() {
    let key = SecretKey::generate();
    let members = fixture_membership(&key);
    let body = fixture_body(&key);
    for signal in [
        CallSignalV1::Create(body.clone()),
        CallSignalV1::Join(body.clone()),
        CallSignalV1::Leave(body.clone()),
        CallSignalV1::End(body.clone()),
    ] {
        let signed = signal.clone().sign(&key).unwrap();
        assert!(signed.verify(&members, 1_000, 0).is_ok());
    }
}

#[test]
fn sign_verify_roundtrip() {
    let key = SecretKey::generate();
    let members = fixture_membership(&key);
    let signal = fixture_signal(&key);
    let signed = signal.clone().sign(&key).unwrap();

    let expected_hash = signal.hash().unwrap();
    assert_eq!(signed.verify(&members, 1_000, 0).unwrap(), expected_hash);

    let copied = signed;
    assert_eq!(copied.verify(&members, 1_000, 0).unwrap(), expected_hash);
}

#[test]
fn tamper_detection_on_every_field() {
    let key = SecretKey::generate();
    let members = fixture_membership(&key);
    let signed = fixture_signal(&key).sign(&key).unwrap();
    let baseline = signed.verify(&members, 1_000, 0).unwrap();

    // Variant discriminant: Create -> Join with the same body.
    let mut tampered = signed.clone();
    let body = tampered.signal.body().clone();
    tampered.signal = CallSignalV1::Join(body);
    assert!(tampered.verify(&members, 1_000, 0).is_err());

    // sender
    let mut tampered = signed.clone();
    tampered.signal.body_mut().sender = SecretKey::generate().public();
    assert!(tampered.verify(&members, 1_000, 0).is_err());

    // call_id
    let mut tampered = signed.clone();
    tampered.signal.body_mut().call_id.0[0] ^= 1;
    assert!(tampered.verify(&members, 1_000, 0).is_err());

    // space
    let mut tampered = signed.clone();
    tampered.signal.body_mut().space = SpaceId::Flock(FlockId([0xff; 32]));
    assert!(tampered.verify(&members, 1_000, 0).is_err());

    // media.send_voice
    let mut tampered = signed.clone();
    tampered.signal.body_mut().media.send_voice = false;
    assert!(tampered.verify(&members, 1_000, 0).is_err());

    // media.recv_voice
    let mut tampered = signed.clone();
    tampered.signal.body_mut().media.recv_voice = false;
    assert!(tampered.verify(&members, 1_000, 0).is_err());

    // media.send_video
    let mut tampered = signed.clone();
    tampered.signal.body_mut().media.send_video = true;
    assert!(tampered.verify(&members, 1_000, 0).is_err());

    // media.recv_video
    let mut tampered = signed.clone();
    tampered.signal.body_mut().media.recv_video = true;
    assert!(tampered.verify(&members, 1_000, 0).is_err());

    // membership_revision
    let mut tampered = signed.clone();
    tampered.signal.body_mut().membership_revision += 1;
    assert!(tampered.verify(&members, 1_000, 0).is_err());

    // issued_unix_ms
    let mut tampered = signed.clone();
    tampered.signal.body_mut().issued_unix_ms += 1;
    assert!(tampered.verify(&members, 1_000, 0).is_err());

    // expiry_unix_ms
    let mut tampered = signed.clone();
    tampered.signal.body_mut().expiry_unix_ms += 1;
    assert!(tampered.verify(&members, 1_000, 0).is_err());

    // The unmodified signal still verifies and is stable.
    assert_eq!(signed.verify(&members, 1_000, 0).unwrap(), baseline);
}

#[test]
fn rejects_wrong_signer() {
    let key = SecretKey::generate();
    let other = SecretKey::generate();
    let members = fixture_membership(&key);
    let other_members = fixture_membership(&other);

    // sign() refuses to sign when the body's sender is not the signing key.
    let mut body = fixture_body(&key);
    body.sender = other.public();
    assert!(CallSignalV1::Create(body).sign(&key).is_err());

    // A signal signed by `key` is not valid once its sender claims `other`.
    let signed = fixture_signal(&key).sign(&key).unwrap();
    let mut forged = signed.clone();
    forged.signal.body_mut().sender = other.public();
    assert!(forged.verify(&members, 1_000, 0).is_err());

    // A signal genuinely signed by `other` verifies under `other`'s identity.
    let mut body = fixture_body(&key);
    body.sender = other.public();
    let signed_by_other = CallSignalV1::Create(body).sign(&other).unwrap();
    assert!(signed_by_other.verify(&other_members, 1_000, 0).is_ok());
}

#[test]
fn rejects_expired_signals() {
    let key = SecretKey::generate();
    let members = fixture_membership(&key);
    let signed = fixture_signal(&key).sign(&key).unwrap();

    // issued=1000, expiry=2000: valid up to 1999, expired at 2000.
    assert!(signed.verify(&members, 1_999, 0).is_ok());
    assert!(signed.verify(&members, 2_000, 0).is_err());
    assert!(signed.verify(&members, 10_000, 0).is_err());
}

#[test]
fn rejects_oversized_duration_and_future_issued() {
    let key = SecretKey::generate();
    let members = fixture_membership(&key);

    // A duration exceeding the maximum lifetime is rejected at sign time.
    let oversized = CallSignalBodyV1 {
        sender: key.public(),
        call_id: CallId::random(),
        space: SpaceId::Flock(FlockId::random()),
        media: MediaCapabilities::default(),
        membership_revision: 0,
        issued_unix_ms: 1_000,
        expiry_unix_ms: 1_000 + (MAX_CALL_SIGNAL_SECS as i64) * 1000 + 1,
    };
    assert!(CallSignalV1::Create(oversized).sign(&key).is_err());

    // A signal issued in the future is rejected unless skew covers it.
    let future = CallSignalBodyV1 {
        sender: key.public(),
        call_id: CallId::random(),
        space: SpaceId::Flock(FlockId::random()),
        media: MediaCapabilities::default(),
        membership_revision: 0,
        issued_unix_ms: 5_000,
        expiry_unix_ms: 6_000,
    };
    let signed = CallSignalV1::Create(future).sign(&key).unwrap();
    assert!(signed.verify(&members, 1_000, 0).is_err());
    assert!(signed.verify(&members, 1_000, 4_000).is_ok());
}

#[test]
fn revision_and_expiry_are_bound() {
    let key = SecretKey::generate();
    let call_id = CallId::random();
    let space = SpaceId::Flock(FlockId([1; 32]));
    let media = MediaCapabilities {
        send_voice: true,
        recv_voice: true,
        send_video: false,
        recv_video: false,
    };

    // Build a membership state at revision 6 with the sender as a member.
    let scope = MembershipScopeId::Flock(FlockId([1; 32]));
    let mut members = MembershipState::genesis(scope, key.public());
    for _ in 0..6 {
        let mutation = MembershipMutationBodyV1 {
            scope,
            revision: members.revision() + 1,
            previous_hash: members.head_hash(),
            actor: key.public(),
            operation: MembershipOperationV1::Add {
                member: SecretKey::generate().public(),
                role: MemberRole::Member,
            },
            effective_key_epoch: members.key_epoch(),
        }
        .sign(&key)
        .unwrap();
        members.apply(&mutation).unwrap();
    }

    let base = CallSignalBodyV1 {
        sender: key.public(),
        call_id,
        space,
        media: media.clone(),
        membership_revision: 5,
        issued_unix_ms: 1_000,
        expiry_unix_ms: 2_000,
    };

    let signal_rev5 = CallSignalV1::Create(base.clone()).sign(&key).unwrap();

    // Different membership revisions produce distinct hashes.
    let mut rev6 = base.clone();
    rev6.membership_revision = 6;
    let signal_rev6 = CallSignalV1::Create(rev6).sign(&key).unwrap();
    assert_ne!(
        signal_rev5.verify(&members, 1_000, 0).unwrap(),
        signal_rev6.verify(&members, 1_000, 0).unwrap()
    );

    // Tampering the revision after signing is detected.
    let mut tampered_rev = signal_rev5.clone();
    tampered_rev.signal.body_mut().membership_revision = 6;
    assert!(tampered_rev.verify(&members, 1_000, 0).is_err());

    // Different expiries produce distinct hashes.
    let mut later_expiry = base.clone();
    later_expiry.expiry_unix_ms = 3_000;
    let signal_later = CallSignalV1::Create(later_expiry).sign(&key).unwrap();
    assert_ne!(
        signal_rev5.verify(&members, 1_000, 0).unwrap(),
        signal_later.verify(&members, 1_000, 0).unwrap()
    );

    // Tampering the expiry after signing is detected.
    let mut tampered_expiry = signal_rev5.clone();
    tampered_expiry.signal.body_mut().expiry_unix_ms = 3_000;
    assert!(tampered_expiry.verify(&members, 1_000, 0).is_err());

    // rev5 expires at 2000 while the later-expiry signal is still live at 2500.
    assert!(signal_rev5.verify(&members, 2_500, 0).is_err());
    assert!(signal_later.verify(&members, 2_500, 0).is_ok());
}

#[test]
fn rejects_non_member() {
    let key = SecretKey::generate();
    let non_member_key = SecretKey::generate();
    let members = fixture_membership(&key);

    let mut body = fixture_body(&key);
    body.sender = non_member_key.public();
    let signed = CallSignalV1::Create(body).sign(&non_member_key).unwrap();
    assert!(signed.verify(&members, 1_000, 0).is_err());
}

#[test]
fn call_refusals_name_their_reason() {
    let key = SecretKey::generate();
    let members = fixture_membership(&key);
    let mut body = fixture_body(&key);
    body.expiry_unix_ms = 1_000;
    assert_eq!(CallSignalV1::Create(body).sign(&key).err(), Some(CallError::ExpiryNotAfterIssue));
    let mut body = fixture_body(&key);
    body.expiry_unix_ms = 1_000 + 60_001;
    assert_eq!(CallSignalV1::Create(body).sign(&key).err(), Some(CallError::TooLong));
    let mut body = fixture_body(&key);
    body.sender = SecretKey::generate().public();
    assert_eq!(CallSignalV1::Create(body).sign(&key).err(), Some(CallError::SenderMismatch));
    let signed = fixture_signal(&key).sign(&key).unwrap();
    assert_eq!(signed.verify(&members, 1_000, -1).err(), Some(CallError::NegativeSkew));
    assert_eq!(signed.verify(&members, 999, 0).err(), Some(CallError::IssuedInFuture));
    assert_eq!(signed.verify(&members, 2_000, 0).err(), Some(CallError::Expired));
    let mut forged = signed;
    forged.signal.body_mut().issued_unix_ms = 1_001;
    assert_eq!(forged.verify(&members, 1_500, 0).err(), Some(CallError::InvalidSignature));
}

#[test]
fn saturating_time_arithmetic() {
    assert_eq!(saturating_add_i64(i64::MAX, 1), i64::MAX);
    assert_eq!(saturating_sub_i64(i64::MIN, 1), i64::MIN);
    assert_eq!(saturating_add_i64(2, 3), 5);
}
