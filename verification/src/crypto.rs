//! Content encryption: per-epoch keys derived with HKDF-SHA256 and sealed
//! with ChaCha20-Poly1305, the room-code flock cipher, and sealed one-to-one
//! chirps.

use vstd::prelude::*;
use vstd::string::StringSliceAdditionalSpecFns;
use chacha20poly1305::aead::{Aead, KeyInit};
use crate::admission::{be64, push_be64};
use crate::keys::{sha256, spec_sha256};
use crate::wire::{push_raw, push_text, utf8};

verus! {

pub const CHIRP_NONCE_LEN: usize = 24;
pub const FLOCK_NONCE_LEN: usize = 12;
pub const AEAD_TAG_BYTES: usize = 16;

/// HKDF-SHA256 with salt `salt` and key material `ikm`, expanded to 32
/// bytes under `info`.
pub uninterp spec fn spec_hkdf_sha256_32(salt: Seq<u8>, ikm: Seq<u8>, info: Seq<u8>) -> Seq<u8>;

/// The ChaCha20-Poly1305 ciphertext (with its tag) of `msg` under `key`,
/// `nonce` and associated data `aad`.
pub uninterp spec fn spec_chacha_seal(key: Seq<u8>, nonce: Seq<u8>, msg: Seq<u8>, aad: Seq<u8>) -> Seq<u8>;

/// The ChaCha20-Poly1305 opening of `ciphertext`; `None` when the tag does
/// not authenticate.
pub uninterp spec fn spec_chacha_open(key: Seq<u8>, nonce: Seq<u8>, ciphertext: Seq<u8>, aad: Seq<u8>) -> Option<Seq<u8>>;

/// Argon2id with default parameters: 32 bytes from a password and a salt.
pub uninterp spec fn spec_argon2id(password: Seq<u8>, salt: Seq<u8>) -> Seq<u8>;

/// The `crypto_box` (X25519, ChaCha20-Poly1305) sealing of `msg` from
/// `my_secret` to `their_public` under `nonce`.
pub uninterp spec fn spec_box_seal(their_public: Seq<u8>, my_secret: Seq<u8>, nonce: Seq<u8>, msg: Seq<u8>) -> Seq<u8>;

/// The `crypto_box` opening; `None` when the tag does not authenticate.
pub uninterp spec fn spec_box_open(their_public: Seq<u8>, my_secret: Seq<u8>, nonce: Seq<u8>, ciphertext: Seq<u8>) -> Option<Seq<u8>>;

#[derive(Clone, Copy, Debug, PartialEq, Eq, Structural)]
pub enum CryptoError {
    EmptySecret,
    KeyDerivation,
    Encryption,
    /// The ciphertext, its nonce, its associated data or the key did not
    /// authenticate.
    Authentication,
    /// The payload is shorter than its nonce.
    ShortPayload,
}

/// 32 fresh random bytes: wraps `rand::random`. Nothing is known of them.
#[verifier::external_body]
pub fn random32() -> [u8; 32] {
    rand::random()
}

/// HKDF-SHA256 extract and expand to 32 bytes: wraps `hkdf::Hkdf::new` and
/// `Hkdf::expand`. `expand` refuses only outputs longer than 255 hash
/// lengths, so for 32 bytes it always succeeds.
#[verifier::external_body]
fn hkdf_sha256_32(salt: &[u8], ikm: &[u8], info: &[u8]) -> (r: Option<[u8; 32]>)
    ensures
        r is Some,
        r matches Some(k) ==> k@ == spec_hkdf_sha256_32(salt@, ikm@, info@),
{
    let mut okm = [0u8; 32];
    match hkdf::Hkdf::<sha2::Sha256>::new(Some(salt), ikm).expand(info, &mut okm) {
        Ok(()) => Some(okm),
        Err(_) => None,
    }
}

/// The longest message ChaCha20-Poly1305 seals without running out of
/// keystream: its 32-bit block counter starts at one, so 64·(2³²−2) bytes.
pub open spec fn chacha_message_limit() -> nat {
    274877906816
}

/// The longest message `crypto_box` seals without running out of
/// keystream: the Poly1305 key takes the first 32 bytes of the legacy
/// ChaCha20 stream, whose block counter is 32 bits wide.
pub open spec fn box_message_limit() -> nat {
    274877906848
}

/// ChaCha20-Poly1305 encryption: wraps `ChaCha20Poly1305::encrypt`. The
/// ciphertext carries a 16-byte tag after the encrypted message. The cipher
/// refuses messages of 2³²−1 blocks or more and panics, out of keystream,
/// just below that; up to the limit it always succeeds.
#[verifier::external_body]
fn chacha_seal(key: &[u8; 32], nonce: &[u8; 12], msg: &[u8], aad: &[u8]) -> (r: Option<Vec<u8>>)
    requires
        msg@.len() <= chacha_message_limit(),
    ensures
        r is Some,
        r matches Some(c) ==> c@ == spec_chacha_seal(key@, nonce@, msg@, aad@) && c@.len() == msg@.len() + 16,
{
    chacha20poly1305::ChaCha20Poly1305::new(key.into())
        .encrypt(nonce.into(), chacha20poly1305::aead::Payload { msg, aad })
        .ok()
}

/// ChaCha20-Poly1305 decryption: wraps `ChaCha20Poly1305::decrypt`. A
/// ciphertext sealed under the same key, nonce and associated data opens
/// to its message. An authentic ciphertext past the sealing limit would
/// run out of keystream and panic, so such lengths are left out.
#[verifier::external_body]
fn chacha_open(key: &[u8; 32], nonce: &[u8; 12], ciphertext: &[u8], aad: &[u8]) -> (r: Option<Vec<u8>>)
    requires
        ciphertext@.len() <= chacha_message_limit() + 16,
    ensures
        match r {
            Some(p) => spec_chacha_open(key@, nonce@, ciphertext@, aad@) == Some(p@)
                && forall|m: Seq<u8>| ciphertext@ == #[trigger] spec_chacha_seal(key@, nonce@, m, aad@) ==> p@ == m,
            None => spec_chacha_open(key@, nonce@, ciphertext@, aad@) is None
                && forall|m: Seq<u8>| ciphertext@ != #[trigger] spec_chacha_seal(key@, nonce@, m, aad@),
        },
{
    chacha20poly1305::ChaCha20Poly1305::new(key.into())
        .decrypt(nonce.into(), chacha20poly1305::aead::Payload { msg: ciphertext, aad })
        .ok()
}

/// Argon2id with default parameters into 32 bytes: wraps
/// `Argon2::default().hash_password_into`. With a 16-byte salt and a
/// 32-byte output, it refuses only passwords longer than `0xFFFFFFFF` bytes.
#[verifier::external_body]
fn argon2id_32(password: &[u8], salt: &[u8; 16]) -> (r: Option<[u8; 32]>)
    ensures
        r is Some <==> password@.len() <= 0xFFFF_FFFF,
        r matches Some(k) ==> k@ == spec_argon2id(password@, salt@),
{
    let mut key = [0u8; 32];
    match argon2::Argon2::default().hash_password_into(password, salt, &mut key) {
        Ok(()) => Some(key),
        Err(_) => None,
    }
}

/// A fresh version-4 UUID's 16 bytes: wraps `uuid::Uuid::new_v4`. Nothing
/// is known of them.
#[verifier::external_body]
fn uuid_v4_bytes() -> [u8; 16] {
    *uuid::Uuid::new_v4().as_bytes()
}

/// A fresh `crypto_box` nonce: wraps `ChaChaBox::generate_nonce` with the
/// operating system's generator. Nothing is known of it.
#[verifier::external_body]
fn box_nonce() -> [u8; 24] {
    let nonce = <crypto_box::ChaChaBox as crypto_box::aead::AeadCore>::generate_nonce(&mut crypto_box::aead::OsRng);
    nonce.into()
}

/// `crypto_box` encryption: wraps `ChaChaBox::new` and `ChaChaBox::encrypt`.
/// With no associated data it refuses nothing; past the limit it panics,
/// out of keystream.
#[verifier::external_body]
fn box_seal(their_public: &[u8; 32], my_secret: &[u8; 32], nonce: &[u8; 24], msg: &[u8]) -> (r: Option<Vec<u8>>)
    requires
        msg@.len() <= box_message_limit(),
    ensures
        r is Some,
        r matches Some(c) ==> c@ == spec_box_seal(their_public@, my_secret@, nonce@, msg@),
{
    let their = crypto_box::PublicKey::from_bytes(*their_public);
    let my = crypto_box::SecretKey::from_bytes(*my_secret);
    crypto_box::ChaChaBox::new(&their, &my).encrypt(nonce.into(), msg).ok()
}

/// `crypto_box` decryption: wraps `ChaChaBox::new` and `ChaChaBox::decrypt`.
/// An authentic ciphertext past the sealing limit would run out of
/// keystream and panic, so such lengths are left out.
#[verifier::external_body]
fn box_open(their_public: &[u8; 32], my_secret: &[u8; 32], nonce: &[u8; 24], ciphertext: &[u8]) -> (r: Option<Vec<u8>>)
    requires
        ciphertext@.len() <= box_message_limit() + 16,
    ensures
        match r {
            Some(m) => spec_box_open(their_public@, my_secret@, nonce@, ciphertext@) == Some(m@),
            None => spec_box_open(their_public@, my_secret@, nonce@, ciphertext@) is None,
        },
{
    let their = crypto_box::PublicKey::from_bytes(*their_public);
    let my = crypto_box::SecretKey::from_bytes(*my_secret);
    crypto_box::ChaChaBox::new(&their, &my).decrypt(nonce.into(), ciphertext).ok()
}

pub open spec fn epoch_key_info(epoch: u64) -> Seq<u8> {
    "starling/v1/epoch-key".spec_bytes() + be64(epoch)
}

/// A content-encryption key for one epoch.
pub struct EpochKey([u8; 32]);

impl EpochKey {
    pub closed spec fn bytes(&self) -> Seq<u8> {
        self.0@
    }

    /// Derives an epoch key from secret key material and public context:
    /// HKDF-SHA256 salted with the context, expanded under a domain tag and
    /// the big-endian epoch.
    pub fn derive(secret: &[u8], context: &[u8], epoch: u64) -> (r: Result<EpochKey, CryptoError>)
        ensures
            secret@.len() == 0 ==> r == Err::<EpochKey, CryptoError>(CryptoError::EmptySecret),
            secret@.len() > 0 ==> (r matches Ok(k) && k.bytes() == spec_hkdf_sha256_32(context@, secret@, epoch_key_info(epoch))),
    {
        if secret.len() == 0 {
            return Err(CryptoError::EmptySecret);
        }
        let mut info: Vec<u8> = Vec::new();
        push_text(&mut info, "starling/v1/epoch-key");
        push_be64(&mut info, epoch);
        proof {
            reveal_strlit("starling/v1/epoch-key");
        }
        match hkdf_sha256_32(context, secret, info.as_slice()) {
            None => Err(CryptoError::KeyDerivation),
            Some(key) => Ok(EpochKey(key)),
        }
    }

    /// Seals `plaintext` with associated data `aad` under a fresh random
    /// nonce, returning the nonce and the ciphertext.
    pub fn seal(&self, plaintext: &[u8], aad: &[u8]) -> (r: Result<([u8; 12], Vec<u8>), CryptoError>)
        requires
            plaintext@.len() <= chacha_message_limit(),
        ensures
            r matches Ok((nonce, c)) && c@ == spec_chacha_seal(self.bytes(), nonce@, plaintext@, aad@)
                && c@.len() == plaintext@.len() + AEAD_TAG_BYTES,
    {
        let fresh = random32();
        let nonce: [u8; 12] = [fresh[0], fresh[1], fresh[2], fresh[3], fresh[4], fresh[5], fresh[6], fresh[7], fresh[8], fresh[9], fresh[10], fresh[11]];
        match chacha_seal(&self.0, &nonce, plaintext, aad) {
            None => Err(CryptoError::Encryption),
            Some(c) => Ok((nonce, c)),
        }
    }

    /// Opens a ciphertext sealed under this key; fails unless the
    /// ciphertext, nonce and associated data authenticate.
    pub fn open(&self, nonce: &[u8; 12], ciphertext: &[u8], aad: &[u8]) -> (r: Result<Vec<u8>, CryptoError>)
        requires
            ciphertext@.len() <= chacha_message_limit() + AEAD_TAG_BYTES,
        ensures
            match r {
                Ok(m) => spec_chacha_open(self.bytes(), nonce@, ciphertext@, aad@) == Some(m@),
                Err(e) => e == CryptoError::Authentication && spec_chacha_open(self.bytes(), nonce@, ciphertext@, aad@) is None,
            },
            forall|m: Seq<u8>| ciphertext@ == #[trigger] spec_chacha_seal(self.bytes(), nonce@, m, aad@) ==> (r matches Ok(p) && p@ == m),
    {
        match chacha_open(&self.0, nonce, ciphertext, aad) {
            None => Err(CryptoError::Authentication),
            Some(m) => Ok(m),
        }
    }
}

pub open spec fn room_code_bytes(code: Seq<char>) -> Seq<u8> {
    "starling/flock/".spec_bytes() + utf8(code)
}

/// The room-code flock cipher: ChaCha20-Poly1305 under a 32-byte key.
pub struct FlockCrypto {
    key: [u8; 32],
}

impl FlockCrypto {
    pub closed spec fn key(&self) -> Seq<u8> {
        self.key@
    }

    /// The legacy derivation: the key is SHA-256 of a prefix and the room
    /// code, so anyone who knows the code can derive it. Kept only to read
    /// legacy traffic.
    pub fn from_room_code(code: &str) -> (c: FlockCrypto)
        ensures
            c.key() == spec_sha256(room_code_bytes(code@)),
    {
        let mut material: Vec<u8> = Vec::new();
        push_text(&mut material, "starling/flock/");
        push_raw(&mut material, code.as_bytes());
        FlockCrypto { key: sha256(material.as_slice()) }
    }

    /// A key derived from a room code and a per-flock salt with Argon2id.
    pub fn from_room_code_v2(code: &str, salt: &[u8; 16]) -> (r: Result<FlockCrypto, CryptoError>)
        ensures
            code.spec_bytes().len() > 0xFFFF_FFFF ==> r == Err::<FlockCrypto, CryptoError>(CryptoError::KeyDerivation),
            code.spec_bytes().len() <= 0xFFFF_FFFF ==> (r matches Ok(c) && c.key() == spec_argon2id(code.spec_bytes(), salt@)),
    {
        match argon2id_32(code.as_bytes(), salt) {
            None => Err(CryptoError::KeyDerivation),
            Some(key) => Ok(FlockCrypto { key }),
        }
    }

    /// A cipher under a granted 32-byte secret.
    pub fn from_secret(secret: &[u8; 32]) -> (c: FlockCrypto)
        ensures
            c.key() == secret@,
    {
        FlockCrypto { key: *secret }
    }

    /// Encrypts under a fresh random nonce: the nonce, then the ciphertext.
    pub fn try_encrypt(&self, plaintext: &[u8]) -> (r: Result<Vec<u8>, CryptoError>)
        requires
            plaintext@.len() <= chacha_message_limit(),
        ensures
            r matches Ok(out) && out@.len() == FLOCK_NONCE_LEN + plaintext@.len() + AEAD_TAG_BYTES
                && out@.skip(12) == spec_chacha_seal(self.key(), out@.take(12), plaintext@, Seq::<u8>::empty()),
    {
        let id = uuid_v4_bytes();
        let nonce: [u8; 12] = [id[0], id[1], id[2], id[3], id[4], id[5], id[6], id[7], id[8], id[9], id[10], id[11]];
        let empty: [u8; 0] = [];
        match chacha_seal(&self.key, &nonce, plaintext, &empty) {
            None => Err(CryptoError::Encryption),
            Some(c) => {
                let mut out: Vec<u8> = Vec::new();
                push_raw(&mut out, &nonce);
                push_raw(&mut out, c.as_slice());
                assert(out@.take(12) =~= nonce@);
                assert(out@.skip(12) =~= c@);
                assert(empty@ =~= Seq::<u8>::empty());
                Ok(out)
            },
        }
    }

    /// Encrypts, giving an empty output if encryption fails.
    pub fn encrypt(&self, plaintext: &[u8]) -> (out: Vec<u8>)
        requires
            plaintext@.len() <= chacha_message_limit(),
        ensures
            out@.len() == FLOCK_NONCE_LEN + plaintext@.len() + AEAD_TAG_BYTES
                && out@.skip(12) == spec_chacha_seal(self.key(), out@.take(12), plaintext@, Seq::<u8>::empty()),
    {
        match self.try_encrypt(plaintext) {
            Ok(out) => out,
            Err(_) => Vec::new(),
        }
    }

    /// Decrypts a nonce-prefixed payload.
    pub fn try_decrypt(&self, data: &[u8]) -> (r: Result<Vec<u8>, CryptoError>)
        requires
            data@.len() <= FLOCK_NONCE_LEN + chacha_message_limit() + AEAD_TAG_BYTES,
        ensures
            data@.len() < FLOCK_NONCE_LEN ==> r == Err::<Vec<u8>, CryptoError>(CryptoError::ShortPayload),
            data@.len() >= FLOCK_NONCE_LEN ==> match r {
                Ok(m) => spec_chacha_open(self.key(), data@.take(12), data@.skip(12), Seq::<u8>::empty()) == Some(m@),
                Err(e) => e == CryptoError::Authentication
                    && spec_chacha_open(self.key(), data@.take(12), data@.skip(12), Seq::<u8>::empty()) is None,
            },
            forall|m: Seq<u8>| data@.len() >= FLOCK_NONCE_LEN
                && data@.skip(12) == #[trigger] spec_chacha_seal(self.key(), data@.take(12), m, Seq::<u8>::empty())
                ==> (r matches Ok(p) && p@ == m),
    {
        if data.len() < FLOCK_NONCE_LEN {
            return Err(CryptoError::ShortPayload);
        }
        let nonce: [u8; 12] = [data[0], data[1], data[2], data[3], data[4], data[5], data[6], data[7], data[8], data[9], data[10], data[11]];
        let mut body: Vec<u8> = Vec::new();
        let mut i: usize = 12;
        while i < data.len()
            invariant
                12 <= i <= data@.len(),
                body@ == data@.subrange(12, i as int),
            decreases data.len() - i,
        {
            body.push(data[i]);
            assert(data@.subrange(12, i + 1) =~= data@.subrange(12, i as int).push(data@[i as int]));
            i += 1;
        }
        assert(nonce@ =~= data@.take(12));
        assert(body@ =~= data@.skip(12));
        let empty: [u8; 0] = [];
        assert(empty@ =~= Seq::<u8>::empty());
        match chacha_open(&self.key, &nonce, body.as_slice(), &empty) {
            None => Err(CryptoError::Authentication),
            Some(m) => Ok(m),
        }
    }

    /// Decrypts, giving `None` on any failure.
    pub fn decrypt(&self, data: &[u8]) -> (r: Option<Vec<u8>>)
        requires
            data@.len() <= FLOCK_NONCE_LEN + chacha_message_limit() + AEAD_TAG_BYTES,
        ensures
            data@.len() < FLOCK_NONCE_LEN ==> r is None,
            data@.len() >= FLOCK_NONCE_LEN ==> match r {
                Some(m) => spec_chacha_open(self.key(), data@.take(12), data@.skip(12), Seq::<u8>::empty()) == Some(m@),
                None => spec_chacha_open(self.key(), data@.take(12), data@.skip(12), Seq::<u8>::empty()) is None,
            },
    {
        match self.try_decrypt(data) {
            Ok(m) => Some(m),
            Err(_) => None,
        }
    }
}

/// Seals a one-to-one chirp from `my` secret key to `their` public key:
/// a fresh 24-byte nonce, then the `crypto_box` ciphertext.
pub fn seal_chirp(my: &[u8; 32], their: &[u8; 32], plain: &[u8]) -> (r: Result<Vec<u8>, CryptoError>)
    requires
        plain@.len() <= box_message_limit(),
    ensures
        r matches Ok(out) && out@.len() >= CHIRP_NONCE_LEN
            && out@.skip(24) == spec_box_seal(their@, my@, out@.take(24), plain@),
{
    let nonce = box_nonce();
    match box_seal(their, my, &nonce, plain) {
        None => Err(CryptoError::Encryption),
        Some(c) => {
            let mut out: Vec<u8> = Vec::new();
            push_raw(&mut out, &nonce);
            push_raw(&mut out, c.as_slice());
            assert(out@.take(24) =~= nonce@);
            assert(out@.skip(24) =~= c@);
            Ok(out)
        },
    }
}

/// Opens a chirp sealed by [`seal_chirp`]; `None` for a blob shorter than
/// its nonce or one that does not authenticate.
pub fn open_chirp(my: &[u8; 32], their: &[u8; 32], blob: &[u8]) -> (r: Option<Vec<u8>>)
    requires
        blob@.len() <= CHIRP_NONCE_LEN + box_message_limit() + AEAD_TAG_BYTES,
    ensures
        blob@.len() < CHIRP_NONCE_LEN ==> r is None,
        blob@.len() >= CHIRP_NONCE_LEN ==> match r {
            Some(m) => spec_box_open(their@, my@, blob@.take(24), blob@.skip(24)) == Some(m@),
            None => spec_box_open(their@, my@, blob@.take(24), blob@.skip(24)) is None,
        },
{
    if blob.len() < CHIRP_NONCE_LEN {
        return None;
    }
    let mut nonce: [u8; 24] = [0u8; 24];
    let mut i: usize = 0;
    while i < 24
        invariant
            0 <= i <= 24,
            blob@.len() >= 24,
            nonce@.len() == 24,
            forall|j: int| 0 <= j < i ==> nonce@[j] == blob@[j],
        decreases 24 - i,
    {
        nonce.set(i, blob[i]);
        i += 1;
    }
    let mut body: Vec<u8> = Vec::new();
    let mut i: usize = 24;
    while i < blob.len()
        invariant
            24 <= i <= blob@.len(),
            body@ == blob@.subrange(24, i as int),
        decreases blob.len() - i,
    {
        body.push(blob[i]);
        assert(blob@.subrange(24, i + 1) =~= blob@.subrange(24, i as int).push(blob@[i as int]));
        i += 1;
    }
    assert(nonce@ =~= blob@.take(24));
    assert(body@ =~= blob@.skip(24));
    box_open(their, my, &nonce, body.as_slice())
}

} // verus!
