use std::time::{Duration, UNIX_EPOCH};

use starling::admission::{
    AdmissionAuthProof, AdmissionCapability, AdmissionError, AdmissionRequestKind, ChallengeStore,
    MembershipCertificate, MembershipValidationHooks,
};
use starling::keys::{EndpointId, SecretKey};
use starling::protocol::id::RoostId;

#[test]
fn challenges_are_bounded_expiring_and_one_use() {
    let now = UNIX_EPOCH + Duration::from_secs(10);
    let mut store = ChallengeStore::new(2, Duration::from_secs(2)).unwrap();
    store.issue([1; 32], now).unwrap();
    store.issue([2; 32], now).unwrap();
    store.issue([3; 32], now).unwrap();
    assert!(!store.consume(&[1; 32], now));
    assert!(store.consume(&[2; 32], now));
    assert!(!store.consume(&[2; 32], now));
    assert!(!store.consume(&[3; 32], now + Duration::from_secs(2)));
}

#[test]
fn proof_binds_every_field_and_capability_checks() {
    let client = SecretKey::generate();
    let server = SecretKey::generate();
    let proof = AdmissionAuthProof {
        major: 1,
        roost_id: RoostId([1; 32]),
        server: server.public(),
        client: client.public(),
        connection_binding: b"tls-exporter".to_vec(),
        challenge: [2; 32],
        kind: AdmissionRequestKind::Join,
    }
    .sign(&client)
    .unwrap();
    proof.verify().unwrap();
    let mut changed = proof.clone();
    changed.proof.kind = AdmissionRequestKind::Renew;
    assert!(changed.verify().is_err());
    let cap = AdmissionCapability::derive(4, b"invite").unwrap();
    assert!(cap.verify(b"invite"));
    assert!(!cap.verify(b"wrong"));
    assert!(!AdmissionCapability { epoch: 5, ..cap }.verify(b"invite"));
}

struct Hooks {
    issuer: EndpointId,
    member: EndpointId,
}

impl MembershipValidationHooks for Hooks {
    fn issuer_was_authorized(&self, _: &RoostId, _: u64, issuer: &EndpointId) -> Result<(), String> {
        if *issuer == self.issuer {
            Ok(())
        } else {
            Err("issuer".to_string())
        }
    }

    fn member_generation_is_current(&self, _: &RoostId, member: &EndpointId, g: u64) -> Result<(), String> {
        if *member == self.member && g == 7 {
            Ok(())
        } else {
            Err("generation".to_string())
        }
    }
}

fn certificate(issuer: &SecretKey, member: EndpointId) -> MembershipCertificate {
    MembershipCertificate {
        major: 1,
        roost_id: RoostId([8; 32]),
        member,
        issuer: issuer.public(),
        membership_epoch: 9,
        auth_generation: 7,
        issued_at_unix_ms: 10,
        expires_at_unix_ms: 20,
    }
}

#[test]
fn certificate_signature_time_and_hooks_are_enforced() {
    let issuer = SecretKey::generate();
    let member = SecretKey::generate().public();
    let signed = certificate(&issuer, member).sign(&issuer).unwrap();
    signed
        .validate_with(15, &Hooks { issuer: issuer.public(), member })
        .unwrap();
    assert!(signed
        .validate_with(20, &Hooks { issuer: issuer.public(), member })
        .is_err());
    let mut tampered = signed;
    tampered.certificate.auth_generation = 8;
    assert!(tampered.verify().is_err());
}

#[test]
fn store_refuses_bad_settings_and_duplicates() {
    assert_eq!(ChallengeStore::new(0, Duration::from_secs(2)).err(), Some(AdmissionError::CapacityZero));
    assert_eq!(ChallengeStore::new(2, Duration::from_secs(0)).err(), Some(AdmissionError::LifetimeZero));
    let now = UNIX_EPOCH + Duration::from_secs(10);
    let mut store = ChallengeStore::new(4, Duration::from_millis(1500)).unwrap();
    assert_eq!(store.issue([1; 32], now), Ok(11_500));
    assert_eq!(store.issue([1; 32], now), Err(AdmissionError::ChallengeExists));
    assert_eq!(store.len(), 1);
    assert!(!store.is_empty());
    assert!(store.consume(&[1; 32], now + Duration::from_millis(1499)));
    assert!(store.is_empty());
    assert_eq!(store.issue([9; 32], UNIX_EPOCH - Duration::from_secs(1)), Err(AdmissionError::ClockOutOfRange));
}

#[test]
fn certificate_refusals_name_their_reason() {
    let issuer = SecretKey::generate();
    let member = SecretKey::generate().public();
    let mut c = certificate(&issuer, member);
    c.expires_at_unix_ms = 10;
    assert_eq!(c.sign(&issuer).err(), Some(AdmissionError::InvalidCertificateLifetime));
    let mut c = certificate(&issuer, member);
    c.major = 2;
    assert_eq!(c.sign(&issuer).err(), Some(AdmissionError::UnsupportedMajor));
    let other = SecretKey::generate();
    assert_eq!(certificate(&issuer, member).sign(&other).err(), Some(AdmissionError::IssuerMismatch));
    let signed = certificate(&issuer, member).sign(&issuer).unwrap();
    assert_eq!(
        signed.validate_with(9, &Hooks { issuer: issuer.public(), member }),
        Err(AdmissionError::NotCurrentlyValid)
    );
    assert_eq!(
        signed.validate_with(15, &Hooks { issuer: other.public(), member }),
        Err(AdmissionError::Policy("issuer".to_string()))
    );
    assert_eq!(
        signed.validate_with(15, &Hooks { issuer: issuer.public(), member: other.public() }),
        Err(AdmissionError::Policy("generation".to_string()))
    );
}

#[test]
fn proof_refusals_name_their_reason() {
    let client = SecretKey::generate();
    let proof = AdmissionAuthProof {
        major: 1,
        roost_id: RoostId([1; 32]),
        server: SecretKey::generate().public(),
        client: client.public(),
        connection_binding: Vec::new(),
        challenge: [2; 32],
        kind: AdmissionRequestKind::Join,
    };
    assert_eq!(proof.clone().sign(&client).err(), Some(AdmissionError::BindingEmpty));
    let mut big = proof.clone();
    big.connection_binding = vec![1; 257];
    assert_eq!(big.sign(&client).err(), Some(AdmissionError::BindingTooLarge));
    let mut zero = proof.clone();
    zero.connection_binding = vec![1];
    zero.roost_id = RoostId([0; 32]);
    assert_eq!(zero.sign(&client).err(), Some(AdmissionError::RoostIdZero));
    let mut ok = proof;
    ok.connection_binding = vec![1];
    assert_eq!(ok.sign(&SecretKey::generate()).err(), Some(AdmissionError::ClientMismatch));
    assert_eq!(AdmissionCapability::derive(1, b"").err(), Some(AdmissionError::InvalidCapabilitySecret));
}

#[test]
fn clock_issue_expires_at_epoch_milliseconds_plus_lifetime() {
    let mut store = ChallengeStore::new(4, Duration::from_millis(1500)).unwrap();
    let now = UNIX_EPOCH + Duration::from_millis(10_250);
    assert_eq!(store.issue([7; 32], now), Ok(11_750));
    assert!(store.consume(&[7; 32], UNIX_EPOCH + Duration::from_millis(11_749)));
    assert_eq!(store.issue([8; 32], UNIX_EPOCH - Duration::from_secs(1)), Err(AdmissionError::ClockOutOfRange));
    assert!(!store.consume(&[8; 32], UNIX_EPOCH + Duration::from_millis(10_300)));
}
