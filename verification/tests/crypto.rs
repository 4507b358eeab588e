use sha2::Digest;
use starling::crypto::{open_chirp, seal_chirp, CryptoError, EpochKey, FlockCrypto};

fn dm_public(secret: &[u8; 32]) -> [u8; 32] {
    *crypto_box::SecretKey::from(*secret).public_key().as_bytes()
}

#[test]
fn epoch_key_is_deterministic_and_context_bound() {
    let first = EpochKey::derive(b"secret", b"space", 7).unwrap();
    let same = EpochKey::derive(b"secret", b"space", 7).unwrap();
    let other = EpochKey::derive(b"secret", b"space", 8).unwrap();
    let (nonce, ciphertext) = first.seal(b"hello", b"aad").unwrap();

    assert_eq!(same.open(&nonce, &ciphertext, b"aad").unwrap(), b"hello");
    assert!(other.open(&nonce, &ciphertext, b"aad").is_err());
    assert!(first.open(&nonce, &ciphertext, b"other aad").is_err());
}

#[test]
fn epoch_encryption_uses_random_nonces() {
    let key = EpochKey::derive(b"secret", b"space", 1).unwrap();
    let first = key.seal(b"same", b"").unwrap();
    let second = key.seal(b"same", b"").unwrap();
    assert_ne!(first.0, second.0);
    assert_ne!(first.1, second.1);
}

#[test]
fn v0_round_trip_and_authentication_failure() {
    let crypto = FlockCrypto::from_room_code("room");
    let ciphertext = crypto.try_encrypt(b"hello").expect("encrypt");
    assert_eq!(crypto.try_decrypt(&ciphertext).expect("decrypt"), b"hello");

    let mut tampered = ciphertext;
    *tampered.last_mut().expect("ciphertext byte") ^= 1;
    assert!(crypto.try_decrypt(&tampered).is_err());
    assert!(crypto.try_decrypt(&[0; 11]).is_err());
}

#[test]
fn v2_round_trip_and_salt_isolation() {
    let salt_a: [u8; 16] = rand::random();
    let salt_b: [u8; 16] = rand::random();
    let crypto = FlockCrypto::from_room_code_v2("room", &salt_a).expect("KDF");
    let ciphertext = crypto.try_encrypt(b"hello").expect("encrypt");
    assert_eq!(crypto.try_decrypt(&ciphertext).expect("decrypt"), b"hello");

    // Different salt produces a different key — cannot decrypt.
    let other = FlockCrypto::from_room_code_v2("room", &salt_b).expect("KDF");
    assert!(other.try_decrypt(&ciphertext).is_err());

    // Tampered ciphertext fails authentication.
    let mut tampered = ciphertext;
    *tampered.last_mut().expect("ciphertext byte") ^= 1;
    assert!(crypto.try_decrypt(&tampered).is_err());
}

#[test]
fn sealed_chirps_open_only_for_the_addressed_recipient() {
    let alice: [u8; 32] = rand::random();
    let bob: [u8; 32] = rand::random();
    let eve: [u8; 32] = rand::random();
    let bob_pk = dm_public(&bob);
    let alice_pk = dm_public(&alice);

    let sealed = seal_chirp(&alice, &bob_pk, b"chirp").expect("seal");
    assert_eq!(open_chirp(&bob, &alice_pk, &sealed).expect("bob opens"), b"chirp");
    assert!(open_chirp(&eve, &alice_pk, &sealed).is_none(), "eve has no matching secret");
    // Wrong sender public key rejects the AEAD tag (the DH was different).
    assert!(open_chirp(&bob, &bob_pk, &sealed).is_none());

    // Anything shorter than the nonce is rejected before AEAD.
    assert!(open_chirp(&bob, &alice_pk, &[0u8; 4]).is_none());

    let mut tampered = sealed;
    *tampered.last_mut().unwrap() ^= 1;
    assert!(open_chirp(&bob, &alice_pk, &tampered).is_none());
}

#[test]
fn crypto_refusals_name_their_reason() {
    assert_eq!(EpochKey::derive(b"", b"space", 1).err(), Some(CryptoError::EmptySecret));
    let crypto = FlockCrypto::from_secret(&[7; 32]);
    assert_eq!(crypto.try_decrypt(&[0; 11]).err(), Some(CryptoError::ShortPayload));
    let ciphertext = crypto.encrypt(b"hi");
    assert_eq!(ciphertext.len(), 12 + 2 + 16);
    assert_eq!(crypto.decrypt(&ciphertext), Some(b"hi".to_vec()));
    let other = FlockCrypto::from_secret(&[8; 32]);
    assert_eq!(other.try_decrypt(&ciphertext).err(), Some(CryptoError::Authentication));
    assert_eq!(other.decrypt(&ciphertext), None);
}

#[test]
fn legacy_room_key_is_sha256_of_prefixed_code() {
    let a = FlockCrypto::from_room_code("room");
    let key: [u8; 32] = sha2::Sha256::digest(b"starling/flock/room").into();
    let b = FlockCrypto::from_secret(&key);
    let ciphertext = a.try_encrypt(b"x").unwrap();
    assert_eq!(b.try_decrypt(&ciphertext).unwrap(), b"x");
}
