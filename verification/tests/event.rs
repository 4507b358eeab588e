use starling::crypto::EpochKey;
use starling::keys::SecretKey;
use starling::protocol::event::{EventError, EventUnsignedV1, SignedEventV1};
use starling::protocol::{EventMetadataV1, FlockId, SpaceId, MAX_EVENT_PARENTS};

fn fixture() -> (SecretKey, EpochKey, EventMetadataV1) {
    let signing_key = SecretKey::from_bytes(&[7; 32]);
    let epoch_key = EpochKey::derive(b"epoch secret", b"fixture space", 3).unwrap();
    let metadata = EventMetadataV1::new(
        9,
        SpaceId::Flock(FlockId([1; 32])),
        signing_key.public(),
        [2; 16],
        11,
        3,
        5,
        vec![[4; 32], [3; 32], [4; 32]],
    )
    .unwrap();
    (signing_key, epoch_key, metadata)
}

#[test]
fn canonical_metadata_sorts_and_deduplicates_parents() {
    let (_, _, metadata) = fixture();
    assert_eq!(metadata.parents, vec![[3; 32], [4; 32]]);
    assert_eq!(metadata.canonical_bytes().unwrap().len(), 150);
}

#[test]
fn seals_signs_verifies_and_opens() {
    let (signing_key, epoch_key, metadata) = fixture();
    let signed = metadata.seal_and_sign(b"hello", &epoch_key, &signing_key).unwrap();
    let expected_hash = signed.event.hash().unwrap();
    assert_eq!(signed.verify().unwrap(), expected_hash);
    let (hash, plaintext) = signed.open(&epoch_key).unwrap();
    assert_eq!(hash, expected_hash);
    assert_eq!(plaintext, b"hello");

    let encoded = signed.encode();
    let decoded = SignedEventV1::decode_canonical(&encoded).unwrap();
    assert_eq!(decoded.open(&epoch_key).unwrap().1, b"hello");
}

#[test]
fn canonical_event_and_hash_golden() {
    let (signing_key, _, metadata) = fixture();
    let event = EventUnsignedV1 {
        kind: metadata.kind,
        space: metadata.space,
        sender: signing_key.public(),
        session_id: metadata.session_id,
        sequence: metadata.sequence,
        key_epoch: metadata.key_epoch,
        membership_revision: metadata.membership_revision,
        parents: metadata.parents,
        nonce: [6; 12],
        ciphertext: vec![7, 8, 9],
    };
    assert_eq!(event.canonical_bytes().unwrap().len(), 166);
    assert_eq!(
        event.hash().unwrap(),
        [
            0x6c, 0xdd, 0x9f, 0x5d, 0x93, 0x6a, 0x3b, 0x57, 0x16, 0x01, 0xe6, 0xe9, 0x80, 0x85,
            0xbb, 0xde, 0xb9, 0xf2, 0x9d, 0x9d, 0x19, 0x0b, 0xfd, 0xcd, 0xb1, 0xa0, 0x3b, 0x45,
            0x8d, 0x79, 0x65, 0x1a,
        ]
    );
}

#[test]
fn rejects_signature_ciphertext_and_aad_tampering() {
    let (signing_key, epoch_key, metadata) = fixture();
    let signed = metadata.seal_and_sign(b"hello", &epoch_key, &signing_key).unwrap();

    let mut ciphertext = signed.clone();
    ciphertext.event.ciphertext[0] ^= 1;
    assert!(ciphertext.open(&epoch_key).is_err());

    let mut aad = signed.clone();
    aad.event.sequence += 1;
    assert!(aad.open(&epoch_key).is_err());

    let mut nonce = signed;
    nonce.event.nonce[0] ^= 1;
    assert!(nonce.open(&epoch_key).is_err());
}

#[test]
fn rejects_wrong_signers_and_excessive_parents() {
    let (signing_key, epoch_key, metadata) = fixture();
    let wrong_key = SecretKey::generate();
    assert!(metadata.clone().seal_and_sign(b"hello", &epoch_key, &wrong_key).is_err());
    assert!(EventMetadataV1::new(
        1,
        metadata.space,
        signing_key.public(),
        [0; 16],
        0,
        0,
        0,
        (0..=MAX_EVENT_PARENTS).map(|value| [value as u8; 32]).collect(),
    )
    .is_err());
}

#[test]
fn event_refusals_name_their_reason() {
    let (signing_key, epoch_key, metadata) = fixture();
    assert_eq!(
        EventMetadataV1::new(1, metadata.space, signing_key.public(), [0; 16], 0, 0, 0,
            (0..=MAX_EVENT_PARENTS).map(|value| [value as u8; 32]).collect()).err(),
        Some(EventError::TooManyParents)
    );
    let signed = metadata.seal_and_sign(b"hello", &epoch_key, &signing_key).unwrap();
    let mut forged = signed.clone();
    forged.event.key_epoch += 1;
    assert!(forged.verify().is_err());
    let mut trailing = signed.encode();
    trailing.push(0);
    assert!(SignedEventV1::decode_canonical(&trailing).is_none());
    assert!(SignedEventV1::decode_canonical(&[1, 2, 3]).is_none());
}
