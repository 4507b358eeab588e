//! Signed, encrypted events: canonical metadata, sealing under an epoch
//! key, signing, verification and opening.

use vstd::prelude::*;
use vstd::string::StringSliceAdditionalSpecFns;
use crate::crypto::{spec_chacha_open, spec_chacha_seal, CryptoError, EpochKey, AEAD_TAG_BYTES};
use crate::keys::{
    bytes32_eq, ed25519_verify, hashes_are_sorted, hashes_sorted, same_elements, sha256,
    sort_dedup_hashes, spec_ed25519_public, spec_ed25519_sign, spec_ed25519_verify, spec_sha256,
    EndpointId, SecretKey, Signature,
};
use crate::protocol::frame::MAX_BODY_BYTES;
use crate::protocol::id::{lemma_space_at_encoding, lemma_space_bytes_injective, push_space, read_space, space_at, space_bytes, SpaceId};
use crate::wire::{
    bytes_field, bytes_field_at, flatten, lemma_bytes_field_at_encoding, lemma_flatten_first, lemma_postcard_bounds,
    lemma_raw_at_encoding, lemma_varint_at_encoding, push_bytes_field, push_raw, push_text, push_varint, raw_at,
    read_array12, read_array16, read_array32, read_array64, read_bytes_field, read_u16, read_u64, u16_at, u64_at,
    varint,
};

verus! {

pub const MAX_EVENT_PARENTS: usize = 32;
pub const MAX_EVENT_OVERHEAD: usize = 2048;
pub const MAX_EVENT_CIPHERTEXT: usize = 1046528;

pub type EventHash = [u8; 32];

#[derive(Clone, Debug, PartialEq, Eq)]
pub struct EventMetadataV1 {
    pub kind: u16,
    pub space: SpaceId,
    pub sender: EndpointId,
    pub session_id: [u8; 16],
    pub sequence: u64,
    pub key_epoch: u64,
    pub membership_revision: u64,
    pub parents: Vec<EventHash>,
}

#[derive(Clone, Debug)]
pub struct EventUnsignedV1 {
    pub kind: u16,
    pub space: SpaceId,
    pub sender: EndpointId,
    pub session_id: [u8; 16],
    pub sequence: u64,
    pub key_epoch: u64,
    pub membership_revision: u64,
    pub parents: Vec<EventHash>,
    pub nonce: [u8; 12],
    pub ciphertext: Vec<u8>,
}

#[derive(Clone, Debug)]
pub struct SignedEventV1 {
    pub event: EventUnsignedV1,
    pub signature: Signature,
}

#[derive(Clone, Copy, Debug, PartialEq, Eq, Structural)]
pub enum EventError {
    TooManyParents,
    /// Parents must be strictly increasing.
    ParentsNotSorted,
    CiphertextTooLarge,
    PlaintextTooLarge,
    SenderMismatch,
    /// The serialized event does not fit in a frame.
    FrameTooLarge,
    InvalidSignature,
    Crypto(CryptoError),
}

pub open spec fn hash_views(s: Seq<[u8; 32]>) -> Seq<Seq<u8>> {
    s.map_values(|h: [u8; 32]| h@)
}

pub open spec fn parents_result(parents: Seq<[u8; 32]>) -> Result<(), EventError> {
    if parents.len() > MAX_EVENT_PARENTS {
        Err(EventError::TooManyParents)
    } else if !hashes_sorted(parents) {
        Err(EventError::ParentsNotSorted)
    } else {
        Ok(())
    }
}

/// The canonical bytes of the fields that metadata and events share.
pub open spec fn header_fields(
    kind: u16,
    space: SpaceId,
    sender: EndpointId,
    session_id: [u8; 16],
    sequence: u64,
    key_epoch: u64,
    membership_revision: u64,
    parents: Seq<[u8; 32]>,
) -> Seq<u8> {
    varint(kind as nat) + space_bytes(space) + sender.0@ + session_id@ + varint(sequence as nat)
        + varint(key_epoch as nat) + varint(membership_revision as nat)
        + (varint(parents.len()) + flatten(hash_views(parents)))
}

pub open spec fn metadata_bytes(m: EventMetadataV1) -> Seq<u8> {
    header_fields(m.kind, m.space, m.sender, m.session_id, m.sequence, m.key_epoch, m.membership_revision, m.parents@)
}

pub open spec fn event_bytes(e: EventUnsignedV1) -> Seq<u8> {
    header_fields(e.kind, e.space, e.sender, e.session_id, e.sequence, e.key_epoch, e.membership_revision, e.parents@)
        + e.nonce@ + bytes_field(e.ciphertext@)
}

pub open spec fn signed_event_bytes(s: SignedEventV1) -> Seq<u8> {
    event_bytes(s.event) + s.signature.0@
}

pub open spec fn aad_domain() -> Seq<u8> {
    "starling/v1/event-aad\0".spec_bytes()
}

pub open spec fn event_aad(e: EventUnsignedV1) -> Seq<u8> {
    aad_domain() + header_fields(e.kind, e.space, e.sender, e.session_id, e.sequence, e.key_epoch, e.membership_revision, e.parents@)
}

pub open spec fn event_signing_bytes(e: EventUnsignedV1) -> Seq<u8> {
    "starling/v1/signed-event\0".spec_bytes() + event_bytes(e)
}

pub open spec fn event_hash(e: EventUnsignedV1) -> Seq<u8> {
    spec_sha256("starling/v1/event-hash\0".spec_bytes() + event_bytes(e))
}

pub open spec fn event_shape_result(e: EventUnsignedV1) -> Result<(), EventError> {
    if parents_result(e.parents@) is Err {
        parents_result(e.parents@)
    } else if e.ciphertext@.len() > MAX_EVENT_CIPHERTEXT {
        Err(EventError::CiphertextTooLarge)
    } else {
        Ok(())
    }
}

/// What verifying a signed event gives: its shape, its frame size and its
/// signature checked, then its hash.
pub open spec fn event_verify_result(s: SignedEventV1) -> Result<Seq<u8>, EventError> {
    if event_shape_result(s.event) is Err {
        Err(event_shape_result(s.event)->Err_0)
    } else if signed_event_bytes(s).len() > MAX_BODY_BYTES {
        Err(EventError::FrameTooLarge)
    } else if !spec_ed25519_verify(s.event.sender.0@, event_signing_bytes(s.event), s.signature.0@) {
        Err(EventError::InvalidSignature)
    } else {
        Ok(event_hash(s.event))
    }
}

pub fn parents_check(parents: &Vec<EventHash>) -> (r: Result<(), EventError>)
    ensures
        r == parents_result(parents@),
{
    if parents.len() > MAX_EVENT_PARENTS {
        return Err(EventError::TooManyParents);
    }
    if !hashes_are_sorted(parents.as_slice()) {
        return Err(EventError::ParentsNotSorted);
    }
    Ok(())
}

pub fn push_hashes(out: &mut Vec<u8>, items: &Vec<EventHash>)
    ensures
        final(out)@ == old(out)@ + (varint(items@.len()) + flatten(hash_views(items@))),
{
    let ghost views = hash_views(items@);
    push_varint(out, items.len() as u64);
    let ghost start = out@;
    let mut i: usize = 0;
    while i < items.len()
        invariant
            0 <= i <= items@.len(),
            views == hash_views(items@),
            out@ == start + flatten(views.take(i as int)),
        decreases items.len() - i,
    {
        push_raw(out, &items[i]);
        assert(views.take(i + 1).drop_last() =~= views.take(i as int));
        i += 1;
    }
    assert(views.take(items@.len() as int) =~= views);
    assert(final(out)@ =~= old(out)@ + (varint(views.len()) + flatten(views)));
}

pub fn copy_hashes(items: &Vec<EventHash>) -> (out: Vec<EventHash>)
    ensures
        out@ == items@,
{
    let mut out: Vec<EventHash> = Vec::new();
    let mut i: usize = 0;
    while i < items.len()
        invariant
            0 <= i <= items@.len(),
            out@ == items@.take(i as int),
        decreases items.len() - i,
    {
        out.push(items[i]);
        assert(items@.take(i + 1) =~= items@.take(i as int).push(items@[i as int]));
        i += 1;
    }
    assert(items@.take(items@.len() as int) =~= items@);
    out
}

impl EventMetadataV1 {
    /// Metadata with its parents sorted and each listed once; fails when
    /// more than `MAX_EVENT_PARENTS` distinct parents remain.
    pub fn new(
        kind: u16,
        space: SpaceId,
        sender: EndpointId,
        session_id: [u8; 16],
        sequence: u64,
        key_epoch: u64,
        membership_revision: u64,
        parents: Vec<EventHash>,
    ) -> (r: Result<EventMetadataV1, EventError>)
        ensures
            match r {
                Ok(m) => m.kind == kind && m.space == space && m.sender == sender && m.session_id == session_id
                    && m.sequence == sequence && m.key_epoch == key_epoch && m.membership_revision == membership_revision
                    && hashes_sorted(m.parents@) && same_elements(m.parents@, parents@)
                    && m.parents@.len() <= MAX_EVENT_PARENTS,
                Err(e) => e == EventError::TooManyParents && exists|s: Seq<[u8; 32]>|
                    hashes_sorted(s) && #[trigger] same_elements(s, parents@) && s.len() > MAX_EVENT_PARENTS,
            },
    {
        let sorted = sort_dedup_hashes(&parents);
        if sorted.len() > MAX_EVENT_PARENTS {
            assert(same_elements(sorted@, parents@));
            return Err(EventError::TooManyParents);
        }
        Ok(EventMetadataV1 {
            kind,
            space,
            sender,
            session_id,
            sequence,
            key_epoch,
            membership_revision,
            parents: sorted,
        })
    }

    fn push_fields(&self, out: &mut Vec<u8>)
        ensures
            final(out)@ == old(out)@ + metadata_bytes(*self),
    {
        push_varint(out, self.kind as u64);
        push_space(out, &self.space);
        push_raw(out, &self.sender.0);
        push_raw(out, &self.session_id);
        push_varint(out, self.sequence);
        push_varint(out, self.key_epoch);
        push_varint(out, self.membership_revision);
        push_hashes(out, &self.parents);
        assert(final(out)@ =~= old(out)@ + metadata_bytes(*self));
    }

    /// The canonical bytes, once the parents are checked.
    pub fn canonical_bytes(&self) -> (r: Result<Vec<u8>, EventError>)
        ensures
            match r {
                Ok(b) => parents_result(self.parents@) is Ok && b@ == metadata_bytes(*self),
                Err(e) => parents_result(self.parents@) == Err::<(), EventError>(e),
            },
    {
        let v = parents_check(&self.parents);
        match v {
            Err(e) => Err(e),
            Ok(()) => {
                let mut out: Vec<u8> = Vec::new();
                self.push_fields(&mut out);
                Ok(out)
            },
        }
    }

    fn aad(&self) -> (r: Result<Vec<u8>, EventError>)
        ensures
            match r {
                Ok(b) => parents_result(self.parents@) is Ok && b@ == aad_domain() + metadata_bytes(*self),
                Err(e) => parents_result(self.parents@) == Err::<(), EventError>(e),
            },
    {
        let v = parents_check(&self.parents);
        match v {
            Err(e) => Err(e),
            Ok(()) => {
                let mut out: Vec<u8> = Vec::new();
                push_text(&mut out, "starling/v1/event-aad\0");
                self.push_fields(&mut out);
                Ok(out)
            },
        }
    }

    /// Seals `plaintext` under the epoch key, binding the metadata as
    /// associated data, and signs the event with the sender's key.
    pub fn seal_and_sign(self, plaintext: &[u8], epoch_key: &EpochKey, secret_key: &SecretKey) -> (r: Result<SignedEventV1, EventError>)
        ensures
            self.sender.0@ != spec_ed25519_public(secret_key.bytes()) ==> r == Err::<SignedEventV1, EventError>(EventError::SenderMismatch),
            self.sender.0@ == spec_ed25519_public(secret_key.bytes()) && plaintext@.len() > MAX_EVENT_CIPHERTEXT - AEAD_TAG_BYTES
                ==> r == Err::<SignedEventV1, EventError>(EventError::PlaintextTooLarge),
            self.sender.0@ == spec_ed25519_public(secret_key.bytes()) && plaintext@.len() <= MAX_EVENT_CIPHERTEXT - AEAD_TAG_BYTES
                && parents_result(self.parents@) is Err ==> r == Err::<SignedEventV1, EventError>(parents_result(self.parents@)->Err_0),
            self.sender.0@ == spec_ed25519_public(secret_key.bytes()) && plaintext@.len() <= MAX_EVENT_CIPHERTEXT - AEAD_TAG_BYTES
                && parents_result(self.parents@) is Ok
                ==> (r is Ok || r == Err::<SignedEventV1, EventError>(EventError::FrameTooLarge)),
            r matches Ok(s) ==> (s.event.kind == self.kind && s.event.space == self.space && s.event.sender == self.sender
                && s.event.session_id == self.session_id && s.event.sequence == self.sequence
                && s.event.key_epoch == self.key_epoch && s.event.membership_revision == self.membership_revision
                && s.event.parents@ == self.parents@
                && s.event.ciphertext@ == spec_chacha_seal(epoch_key.bytes(), s.event.nonce@, plaintext@, aad_domain() + metadata_bytes(self))
                && s.event.ciphertext@ == spec_chacha_seal(epoch_key.bytes(), s.event.nonce@, plaintext@, event_aad(s.event))
                && event_verify_result(s) == Ok::<Seq<u8>, EventError>(event_hash(s.event))),
    {
        let public = secret_key.public();
        if !bytes32_eq(&self.sender.0, &public.0) {
            return Err(EventError::SenderMismatch);
        }
        if plaintext.len() > MAX_EVENT_CIPHERTEXT - AEAD_TAG_BYTES {
            return Err(EventError::PlaintextTooLarge);
        }
        let aad = match self.aad() {
            Err(e) => return Err(e),
            Ok(a) => a,
        };
        let sealed = epoch_key.seal(plaintext, aad.as_slice());
        let (nonce, ciphertext) = match sealed {
            Err(e) => return Err(EventError::Crypto(e)),
            Ok(p) => p,
        };
        let event = EventUnsignedV1 {
            kind: self.kind,
            space: self.space,
            sender: self.sender,
            session_id: self.session_id,
            sequence: self.sequence,
            key_epoch: self.key_epoch,
            membership_revision: self.membership_revision,
            parents: self.parents,
            nonce,
            ciphertext,
        };
        event.sign(secret_key)
    }
}

impl EventUnsignedV1 {
    /// The event's metadata.
    pub fn metadata(&self) -> (m: EventMetadataV1)
        ensures
            m.kind == self.kind && m.space == self.space && m.sender == self.sender && m.session_id == self.session_id
                && m.sequence == self.sequence && m.key_epoch == self.key_epoch
                && m.membership_revision == self.membership_revision && m.parents@ == self.parents@,
    {
        EventMetadataV1 {
            kind: self.kind,
            space: self.space,
            sender: self.sender,
            session_id: self.session_id,
            sequence: self.sequence,
            key_epoch: self.key_epoch,
            membership_revision: self.membership_revision,
            parents: copy_hashes(&self.parents),
        }
    }

    pub fn validate_shape(&self) -> (r: Result<(), EventError>)
        ensures
            r == event_shape_result(*self),
    {
        let v = parents_check(&self.parents);
        if v.is_err() {
            return v;
        }
        if self.ciphertext.len() > MAX_EVENT_CIPHERTEXT {
            return Err(EventError::CiphertextTooLarge);
        }
        Ok(())
    }

    fn push_bytes(&self, out: &mut Vec<u8>)
        ensures
            final(out)@ == old(out)@ + event_bytes(*self),
    {
        push_varint(out, self.kind as u64);
        push_space(out, &self.space);
        push_raw(out, &self.sender.0);
        push_raw(out, &self.session_id);
        push_varint(out, self.sequence);
        push_varint(out, self.key_epoch);
        push_varint(out, self.membership_revision);
        push_hashes(out, &self.parents);
        push_raw(out, &self.nonce);
        push_bytes_field(out, self.ciphertext.as_slice());
        assert(final(out)@ =~= old(out)@ + event_bytes(*self));
    }

    /// The canonical bytes, once the shape is checked.
    pub fn canonical_bytes(&self) -> (r: Result<Vec<u8>, EventError>)
        ensures
            match r {
                Ok(b) => event_shape_result(*self) is Ok && b@ == event_bytes(*self),
                Err(e) => event_shape_result(*self) == Err::<(), EventError>(e),
            },
    {
        let v = self.validate_shape();
        match v {
            Err(e) => Err(e),
            Ok(()) => {
                let mut out: Vec<u8> = Vec::new();
                self.push_bytes(&mut out);
                Ok(out)
            },
        }
    }

    /// The event hash: SHA-256 over a domain tag and the canonical bytes.
    pub fn hash(&self) -> (r: Result<EventHash, EventError>)
        ensures
            match r {
                Ok(h) => event_shape_result(*self) is Ok && h@ == event_hash(*self),
                Err(e) => event_shape_result(*self) == Err::<(), EventError>(e),
            },
    {
        let v = self.validate_shape();
        match v {
            Err(e) => Err(e),
            Ok(()) => {
                let mut out: Vec<u8> = Vec::new();
                push_text(&mut out, "starling/v1/event-hash\0");
                self.push_bytes(&mut out);
                Ok(sha256(out.as_slice()))
            },
        }
    }

    fn signing_bytes(&self) -> (r: Result<Vec<u8>, EventError>)
        ensures
            match r {
                Ok(b) => event_shape_result(*self) is Ok && b@ == event_signing_bytes(*self),
                Err(e) => event_shape_result(*self) == Err::<(), EventError>(e),
            },
    {
        let v = self.validate_shape();
        match v {
            Err(e) => Err(e),
            Ok(()) => {
                let mut out: Vec<u8> = Vec::new();
                push_text(&mut out, "starling/v1/signed-event\0");
                self.push_bytes(&mut out);
                Ok(out)
            },
        }
    }

    /// Signs the event with the sender's key; the signed event must fit in
    /// a frame.
    pub fn sign(self, secret_key: &SecretKey) -> (r: Result<SignedEventV1, EventError>)
        ensures
            self.sender.0@ != spec_ed25519_public(secret_key.bytes()) ==> r == Err::<SignedEventV1, EventError>(EventError::SenderMismatch),
            self.sender.0@ == spec_ed25519_public(secret_key.bytes()) && event_shape_result(self) is Err
                ==> r == Err::<SignedEventV1, EventError>(event_shape_result(self)->Err_0),
            self.sender.0@ == spec_ed25519_public(secret_key.bytes()) && event_shape_result(self) is Ok
                && event_bytes(self).len() + 64 > MAX_BODY_BYTES ==> r == Err::<SignedEventV1, EventError>(EventError::FrameTooLarge),
            self.sender.0@ == spec_ed25519_public(secret_key.bytes()) && event_shape_result(self) is Ok
                && event_bytes(self).len() + 64 <= MAX_BODY_BYTES ==> r is Ok,
            r matches Ok(s) ==> (s.event == self && s.signature.0@ == spec_ed25519_sign(secret_key.bytes(), event_signing_bytes(self))
                && event_verify_result(s) == Ok::<Seq<u8>, EventError>(event_hash(self))),
    {
        let public = secret_key.public();
        if !bytes32_eq(&self.sender.0, &public.0) {
            return Err(EventError::SenderMismatch);
        }
        let bytes = match self.signing_bytes() {
            Err(e) => return Err(e),
            Ok(b) => b,
        };
        let signature = secret_key.sign(bytes.as_slice());
        let signed = SignedEventV1 { event: self, signature };
        match signed.validate_frame_size() {
            Err(e) => Err(e),
            Ok(()) => Ok(signed),
        }
    }
}

impl SignedEventV1 {
    /// The canonical bytes of the signed event.
    pub fn encode(&self) -> (b: Vec<u8>)
        ensures
            b@ == signed_event_bytes(*self),
    {
        let mut out: Vec<u8> = Vec::new();
        self.event.push_bytes(&mut out);
        push_raw(&mut out, &self.signature.0);
        out
    }

    fn validate_frame_size(&self) -> (r: Result<(), EventError>)
        ensures
            r is Ok <==> signed_event_bytes(*self).len() <= MAX_BODY_BYTES,
            r is Err ==> r == Err::<(), EventError>(EventError::FrameTooLarge),
    {
        let bytes = self.encode();
        if bytes.len() > MAX_BODY_BYTES {
            return Err(EventError::FrameTooLarge);
        }
        Ok(())
    }

    /// Checks the shape, the frame size and the signature, and returns the
    /// canonical event hash.
    pub fn verify(&self) -> (r: Result<EventHash, EventError>)
        ensures
            match r {
                Ok(h) => event_verify_result(*self) == Ok::<Seq<u8>, EventError>(h@),
                Err(e) => event_verify_result(*self) == Err::<Seq<u8>, EventError>(e),
            },
    {
        let v = self.event.validate_shape();
        if let Err(e) = v {
            return Err(e);
        }
        if let Err(e) = self.validate_frame_size() {
            return Err(e);
        }
        let bytes = match self.event.signing_bytes() {
            Err(e) => return Err(e),
            Ok(b) => b,
        };
        if !ed25519_verify(&self.event.sender, bytes.as_slice(), &self.signature) {
            return Err(EventError::InvalidSignature);
        }
        self.event.hash()
    }

    /// Verifies the event, then opens its ciphertext with the epoch key;
    /// the metadata is the associated data.
    pub fn open(&self, epoch_key: &EpochKey) -> (r: Result<(EventHash, Vec<u8>), EventError>)
        ensures
            event_verify_result(*self) is Err ==> r == Err::<(EventHash, Vec<u8>), EventError>(event_verify_result(*self)->Err_0),
            event_verify_result(*self) is Ok ==> match r {
                Ok((h, m)) => event_verify_result(*self) == Ok::<Seq<u8>, EventError>(h@)
                    && spec_chacha_open(epoch_key.bytes(), self.event.nonce@, self.event.ciphertext@, event_aad(self.event)) == Some(m@),
                Err(e) => e == EventError::Crypto(CryptoError::Authentication)
                    && spec_chacha_open(epoch_key.bytes(), self.event.nonce@, self.event.ciphertext@, event_aad(self.event)) is None,
            },
            forall|m: Seq<u8>| event_verify_result(*self) is Ok
                && self.event.ciphertext@ == #[trigger] spec_chacha_seal(epoch_key.bytes(), self.event.nonce@, m, event_aad(self.event))
                ==> (r matches Ok((h, p)) && p@ == m),
    {
        let hash = match self.verify() {
            Err(e) => return Err(e),
            Ok(h) => h,
        };
        let metadata = self.event.metadata();
        let aad = match metadata.aad() {
            Err(e) => return Err(e),
            Ok(a) => a,
        };
        match epoch_key.open(&self.event.nonce, self.event.ciphertext.as_slice(), aad.as_slice()) {
            Err(e) => Err(EventError::Crypto(e)),
            Ok(m) => Ok((hash, m)),
        }
    }
}

/// `n` consecutive 32-byte values at `pos`.
pub open spec fn chunks32_at(s: Seq<u8>, pos: int, n: nat) -> Option<(Seq<Seq<u8>>, int)>
    decreases n,
{
    if n == 0 {
        Some((Seq::empty(), pos))
    } else {
        match raw_at(s, pos, 32) {
            None => None,
            Some((b, p)) => match chunks32_at(s, p, (n - 1) as nat) {
                None => None,
                Some((rest, q)) => Some((seq![b] + rest, q)),
            },
        }
    }
}

/// A length-prefixed list of 32-byte values at `pos`.
pub open spec fn hash_list_at(s: Seq<u8>, pos: int) -> Option<(Seq<Seq<u8>>, int)> {
    match u64_at(s, pos) {
        None => None,
        Some((n, p)) => chunks32_at(s, p, n),
    }
}

pub fn read_chunks32(s: &[u8], pos: usize, n: u64) -> (r: Option<(Vec<EventHash>, usize)>)
    ensures
        match chunks32_at(s@, pos as int, n as nat) {
            None => r is None,
            Some((c, p)) => r matches Some((x, q)) && hash_views(x@) == c && q == p,
        },
{
    let mut out: Vec<EventHash> = Vec::new();
    let mut at = pos;
    let mut i: u64 = 0;
    while i < n
        invariant
            0 <= i <= n,
            chunks32_at(s@, pos as int, n as nat) == match chunks32_at(s@, at as int, (n - i) as nat) {
                None => None,
                Some((c, q)) => Some((hash_views(out@) + c, q)),
            },
        decreases n - i,
    {
        match read_array32(s, at) {
            None => {
                return None;
            },
            Some((h, q)) => {
                let ghost before = out@;
                out.push(h);
                assert(hash_views(out@) =~= hash_views(before) + seq![h@]);
                proof {
                    let rest = chunks32_at(s@, q as int, (n - i - 1) as nat);
                    if let Some((c, q2)) = rest {
                        assert(hash_views(before) + (seq![h@] + c) =~= hash_views(out@) + c);
                    }
                }
                at = q;
                i += 1;
            },
        }
    }
    assert(hash_views(out@) + Seq::<Seq<u8>>::empty() =~= hash_views(out@));
    Some((out, at))
}

/// Reading back a run of 32-byte values gives them.
pub proof fn lemma_chunks32_at_encoding(pre: Seq<u8>, hs: Seq<[u8; 32]>, rest: Seq<u8>)
    ensures
        chunks32_at(pre + flatten(hash_views(hs)) + rest, pre.len() as int, hs.len()) == Some(
            (hash_views(hs), (pre.len() + 32 * hs.len()) as int),
        ),
    decreases hs.len(),
{
    let v = hash_views(hs);
    if hs.len() == 0 {
        assert(v =~= Seq::<Seq<u8>>::empty());
    } else {
        lemma_flatten_first(v);
        let h0 = hs[0]@;
        let tail = hs.drop_first();
        assert(v.drop_first() =~= hash_views(tail));
        let ft = flatten(hash_views(tail));
        assert(pre + flatten(v) + rest =~= pre + h0 + (ft + rest));
        lemma_raw_at_encoding(pre, h0, ft + rest);
        assert(pre + flatten(v) + rest =~= (pre + h0) + ft + rest);
        lemma_chunks32_at_encoding(pre + h0, tail, rest);
        assert(seq![h0] + hash_views(tail) =~= v);
    }
}

/// Where each field of a signed event's canonical bytes is read back, and
/// what it reads as.
pub open spec fn parses_as(s: Seq<u8>, e: SignedEventV1) -> bool {
    let ev = e.event;
    let p1 = varint(ev.kind as nat).len() as int;
    let p2 = p1 + space_bytes(ev.space).len();
    let p3 = p2 + 32;
    let p4 = p3 + 16;
    let p5 = p4 + varint(ev.sequence as nat).len();
    let p6 = p5 + varint(ev.key_epoch as nat).len();
    let p7 = p6 + varint(ev.membership_revision as nat).len();
    let p8 = p7 + varint(ev.parents@.len()).len();
    let p9 = p8 + 32 * ev.parents@.len();
    let p10 = p9 + 12;
    let p11 = p10 + bytes_field(ev.ciphertext@).len();
    &&& u16_at(s, 0) == Some((ev.kind as nat, p1))
    &&& space_at(s, p1) == Some((space_bytes(ev.space), p2))
    &&& raw_at(s, p2, 32) == Some((ev.sender.0@, p3))
    &&& raw_at(s, p3, 16) == Some((ev.session_id@, p4))
    &&& u64_at(s, p4) == Some((ev.sequence as nat, p5))
    &&& u64_at(s, p5) == Some((ev.key_epoch as nat, p6))
    &&& u64_at(s, p6) == Some((ev.membership_revision as nat, p7))
    &&& u64_at(s, p7) == Some((ev.parents@.len(), p8))
    &&& chunks32_at(s, p8, ev.parents@.len()) == Some((hash_views(ev.parents@), p9))
    &&& raw_at(s, p9, 12) == Some((ev.nonce@, p10))
    &&& bytes_field_at(s, p10) == Some((ev.ciphertext@, p11))
    &&& raw_at(s, p11, 64) == Some((e.signature.0@, p11 + 64))
}

pub proof fn lemma_assoc(q: Seq<u8>, p: Seq<u8>, r: Seq<u8>)
    ensures
        q + (p + r) == q + p + r,
{
    assert(q + (p + r) =~= q + p + r);
}

/// The canonical bytes of a signed event read back field by field.
#[verifier::rlimit(40)]
pub proof fn lemma_signed_event_parses(e: SignedEventV1)
    ensures
        parses_as(signed_event_bytes(e), e),
{
    lemma_postcard_bounds();
    let ev = e.event;
    let v1 = varint(ev.kind as nat);
    let sb = space_bytes(ev.space);
    let snd = ev.sender.0@;
    let ses = ev.session_id@;
    let v5 = varint(ev.sequence as nat);
    let v6 = varint(ev.key_epoch as nat);
    let v7 = varint(ev.membership_revision as nat);
    let v8 = varint(ev.parents@.len());
    let fl = flatten(hash_views(ev.parents@));
    let nc = ev.nonce@;
    let bf = bytes_field(ev.ciphertext@);
    let sg = e.signature.0@;
    let r12 = Seq::<u8>::empty();
    let r11 = sg;
    let r10 = bf + r11;
    let r9 = nc + r10;
    let r8 = fl + r9;
    let r7 = v8 + r8;
    let r6 = v7 + r7;
    let r5 = v6 + r6;
    let r4 = v5 + r5;
    let r3 = ses + r4;
    let r2 = snd + r3;
    let r1 = sb + r2;
    let s = signed_event_bytes(e);
    assert(ev.parents.len() == ev.parents@.len());
    assert(ev.ciphertext.len() == ev.ciphertext@.len());
    let q1 = v1;
    let q2 = q1 + sb;
    let q3 = q2 + snd;
    let q4 = q3 + ses;
    let q5 = q4 + v5;
    let q6 = q5 + v6;
    let q7 = q6 + v7;
    let q8 = q7 + v8;
    let q9 = q8 + fl;
    let q10 = q9 + nc;
    let q11 = q10 + bf;
    lemma_assoc(q7, v8, fl);
    assert(s == q11 + r11);
    lemma_assoc(q10, bf, r11);
    lemma_assoc(q9, nc, r10);
    lemma_assoc(q8, fl, r9);
    lemma_assoc(q7, v8, r8);
    lemma_assoc(q6, v7, r7);
    lemma_assoc(q5, v6, r6);
    lemma_assoc(q4, v5, r5);
    lemma_assoc(q3, ses, r4);
    lemma_assoc(q2, snd, r3);
    lemma_assoc(q1, sb, r2);
    let e0 = Seq::<u8>::empty();
    assert(e0 + v1 + r1 =~= q1 + r1);
    lemma_varint_at_encoding(e0, ev.kind as nat, r1, 3, 3);
    lemma_space_at_encoding(q1, ev.space, r2);
    lemma_raw_at_encoding(q2, snd, r3);
    lemma_raw_at_encoding(q3, ses, r4);
    lemma_varint_at_encoding(q4, ev.sequence as nat, r5, 10, 1);
    lemma_varint_at_encoding(q5, ev.key_epoch as nat, r6, 10, 1);
    lemma_varint_at_encoding(q6, ev.membership_revision as nat, r7, 10, 1);
    lemma_varint_at_encoding(q7, ev.parents@.len(), r8, 10, 1);
    lemma_chunks32_at_encoding(q8, ev.parents@, r9);
    lemma_flatten_len(ev.parents@);
    lemma_raw_at_encoding(q9, nc, r10);
    lemma_bytes_field_at_encoding(q10, ev.ciphertext@, r11);
    assert(q11 + sg + r12 =~= q11 + r11);
    lemma_raw_at_encoding(q11, sg, r12);
}

pub proof fn lemma_flatten_len(hs: Seq<[u8; 32]>)
    ensures
        flatten(hash_views(hs)).len() == 32 * hs.len(),
    decreases hs.len(),
{
    if hs.len() > 0 {
        lemma_flatten_len(hs.drop_last());
        assert(hash_views(hs).drop_last() =~= hash_views(hs.drop_last()));
    }
}

/// Two signed events agree on every field.
pub open spec fn same_signed_event(a: SignedEventV1, b: SignedEventV1) -> bool {
    &&& a.event.kind == b.event.kind
    &&& a.event.space == b.event.space
    &&& a.event.sender == b.event.sender
    &&& a.event.session_id == b.event.session_id
    &&& a.event.sequence == b.event.sequence
    &&& a.event.key_epoch == b.event.key_epoch
    &&& a.event.membership_revision == b.event.membership_revision
    &&& a.event.parents@ == b.event.parents@
    &&& a.event.nonce == b.event.nonce
    &&& a.event.ciphertext@ == b.event.ciphertext@
    &&& a.signature == b.signature
}

/// A signed event is determined by its canonical bytes.
pub proof fn lemma_signed_event_bytes_injective(a: SignedEventV1, b: SignedEventV1)
    requires
        signed_event_bytes(a) == signed_event_bytes(b),
    ensures
        same_signed_event(a, b),
{
    lemma_signed_event_parses(a);
    lemma_signed_event_parses(b);
    lemma_space_bytes_injective(a.event.space, b.event.space);
    assert(a.event.sender.0 =~= b.event.sender.0);
    assert(a.event.session_id =~= b.event.session_id);
    assert(a.event.nonce =~= b.event.nonce);
    assert(a.signature.0 =~= b.signature.0);
    let pa = a.event.parents@;
    let pb = b.event.parents@;
    assert(hash_views(pa) == hash_views(pb));
    assert(pa.len() == pb.len());
    assert forall|i: int| 0 <= i < pa.len() implies pa[i] == pb[i] by {
        assert(hash_views(pa)[i] == hash_views(pb)[i]);
        assert(pa[i] =~= pb[i]);
    }
    assert(pa =~= pb);
}

impl SignedEventV1 {
    /// Reads a signed event from its canonical bytes; anything else,
    /// including bytes that read as an event but encode differently, is
    /// refused.
    pub fn decode_canonical(bytes: &[u8]) -> (r: Option<SignedEventV1>)
        ensures
            r matches Some(e) ==> signed_event_bytes(e) == bytes@,
            forall|e: SignedEventV1| #[trigger] signed_event_bytes(e) == bytes@ ==> (r matches Some(d) && same_signed_event(d, e)),
    {
        let ghost encodes = exists|e: SignedEventV1| #[trigger] signed_event_bytes(e) == bytes@;
        let ghost w: SignedEventV1 = choose|e: SignedEventV1| #[trigger] signed_event_bytes(e) == bytes@;
        proof {
            if encodes {
                lemma_signed_event_parses(w);
            }
        }
        let (kind, p) = match read_u16(bytes, 0) {
            None => return None,
            Some(v) => v,
        };
        let (space, p) = match read_space(bytes, p) {
            None => return None,
            Some(v) => v,
        };
        let (sender, p) = match read_array32(bytes, p) {
            None => return None,
            Some(v) => v,
        };
        let (session_id, p) = match read_array16(bytes, p) {
            None => return None,
            Some(v) => v,
        };
        let (sequence, p) = match read_u64(bytes, p) {
            None => return None,
            Some(v) => v,
        };
        let (key_epoch, p) = match read_u64(bytes, p) {
            None => return None,
            Some(v) => v,
        };
        let (membership_revision, p) = match read_u64(bytes, p) {
            None => return None,
            Some(v) => v,
        };
        let (n, p) = match read_u64(bytes, p) {
            None => return None,
            Some(v) => v,
        };
        let (parents, p) = match read_chunks32(bytes, p, n) {
            None => return None,
            Some(v) => v,
        };
        let (nonce, p) = match read_array12(bytes, p) {
            None => return None,
            Some(v) => v,
        };
        let (ciphertext, p) = match read_bytes_field(bytes, p) {
            None => return None,
            Some(v) => v,
        };
        let (signature, _) = match read_array64(bytes, p) {
            None => return None,
            Some(v) => v,
        };
        let event = SignedEventV1 {
            event: EventUnsignedV1 {
                kind,
                space,
                sender: EndpointId(sender),
                session_id,
                sequence,
                key_epoch,
                membership_revision,
                parents,
                nonce,
                ciphertext,
            },
            signature: Signature(signature),
        };
        let encoded = event.encode();
        proof {
            if encodes {
                lemma_space_bytes_injective(space, w.event.space);
                assert(sender =~= w.event.sender.0);
                assert(parents@ =~= w.event.parents@) by {
                    assert forall|i: int| 0 <= i < parents@.len() implies parents@[i] == w.event.parents@[i] by {
                        assert(hash_views(parents@)[i] == hash_views(w.event.parents@)[i]);
                        assert(parents@[i] =~= w.event.parents@[i]);
                    }
                }
                assert(signed_event_bytes(event) =~= signed_event_bytes(w));
            }
        }
        if crate::wire::bytes_equal(encoded.as_slice(), bytes) {
            proof {
                assert forall|e: SignedEventV1| #[trigger] signed_event_bytes(e) == bytes@ implies same_signed_event(event, e) by {
                    lemma_signed_event_bytes_injective(event, e);
                }
            }
            Some(event)
        } else {
            None
        }
    }
}

} // verus!
