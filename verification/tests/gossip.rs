use starling::event::{BirdStatus, ChatMessage, Signed, SignedError, SIGNED_DOMAIN};
use starling::keys::SecretKey;

fn status_payload(id: &[u8; 32], status: u8) -> Vec<u8> {
    // a `Status { id, status }` payload: variant 2, the 32 key bytes, the status variant
    let mut out = vec![2u8];
    out.extend_from_slice(id);
    out.push(status);
    out
}

#[test]
fn signed_envelope_round_trips_and_rejects_tampering() {
    let secret = SecretKey::generate();
    let payload = status_payload(&secret.public().0, 0);
    let signed = Signed::sign(&secret, payload.clone());
    assert_eq!(signed.author, secret.public());
    signed.verify().expect("valid signature verifies");

    let mut forged = signed.clone();
    forged.payload[0] ^= 0xff;
    assert!(forged.verify().is_err(), "tampered payload must fail");

    let mut stolen_sig = signed.clone();
    // Move the real signature onto a payload owned by a different author.
    let other = SecretKey::generate();
    let forged_payload = status_payload(&secret.public().0, 1);
    stolen_sig.author = other.public();
    stolen_sig.payload = forged_payload;
    assert!(stolen_sig.verify().is_err(), "cross-author signature rejected");

    assert_eq!(SIGNED_DOMAIN.as_bytes(), b"starling/v1/gossip-signed");
}

#[test]
fn envelope_signature_covers_the_domain() {
    let secret = SecretKey::from_bytes(&[9; 32]);
    let signed = Signed::sign(&secret, b"payload".to_vec());
    assert_eq!(signed.sig.len(), 64);
    let mut message = SIGNED_DOMAIN.as_bytes().to_vec();
    message.extend_from_slice(b"payload");
    assert!(verify(&signed.author.0, &message, &signed.sig));
    assert!(!verify(&signed.author.0, b"payload", &signed.sig));
}

fn verify(key: &[u8; 32], message: &[u8], sig: &[u8]) -> bool {
    let key = iroh::PublicKey::from_bytes(key).unwrap();
    let sig = iroh::Signature::from_bytes(sig.try_into().unwrap());
    key.verify(message, &sig).is_ok()
}

#[test]
fn malformed_signatures_are_named() {
    let secret = SecretKey::generate();
    let mut signed = Signed::sign(&secret, vec![1, 2, 3]);
    signed.sig.pop();
    assert_eq!(signed.verify(), Err(SignedError::MalformedSignature));
    assert_eq!(SignedError::MalformedSignature.message(), "malformed gossip signature");
    let mut signed = Signed::sign(&secret, vec![1, 2, 3]);
    signed.sig[0] ^= 1;
    assert_eq!(signed.verify(), Err(SignedError::VerificationFailed));
    assert_eq!(Signed::OVERHEAD_BYTES, 100);
}

#[test]
fn chat_messages_and_statuses_are_plain_values() {
    let m = ChatMessage { id: "1".into(), author: "a".into(), body: "hi".into(), ts: 5 };
    let c = m.clone();
    assert_eq!(c.body, "hi");
    assert_eq!(c.ts, 5);
    assert_ne!(BirdStatus::Online, BirdStatus::Idle);
    assert_eq!(BirdStatus::InCall, BirdStatus::InCall);
}
