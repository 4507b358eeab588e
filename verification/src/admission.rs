//! Roost admission: one-use expiring challenges, signed proofs of a
//! client's key over a connection binding, invitation capabilities, and
//! signed membership certificates.

use vstd::prelude::*;
use vstd::string::StringSliceAdditionalSpecFns;
use std::time::{Duration, SystemTime};
use crate::keys::{
    bytes32_eq, ed25519_verify, sha256, spec_ed25519_public, spec_ed25519_sign, spec_ed25519_verify,
    spec_sha256, EndpointId, SecretKey, Signature,
};
use crate::protocol::RoostId;
use crate::wire::{all_zero, bytes_field, is_all_zero, push_bytes_field, push_raw, push_text, push_varint, varint};

verus! {

pub const FRAME_ADMISSION_CHALLENGE: u16 = 0x2101;
pub const FRAME_ADMISSION_REQUEST: u16 = 0x2102;
pub const FRAME_ADMISSION_CERTIFICATE: u16 = 0x2103;
pub const PROTOCOL_MAJOR: u16 = 1;
pub const CHALLENGE_BYTES: usize = 32;
pub const MAX_CONNECTION_BINDING_BYTES: usize = 256;
pub const MAX_CAPABILITY_BYTES: usize = 256;

pub type Challenge = [u8; 32];

#[derive(Clone, Debug, PartialEq, Eq)]
pub struct AdmissionChallenge {
    pub major: u16,
    pub roost_id: RoostId,
    pub server: EndpointId,
    pub challenge: Challenge,
    pub expires_at_unix_ms: u64,
}

#[derive(Clone, Copy, Debug, PartialEq, Eq, Structural)]
pub enum AdmissionRequestKind {
    Join,
    Renew,
}

#[derive(Clone, Debug, PartialEq, Eq)]
pub struct AdmissionAuthProof {
    pub major: u16,
    pub roost_id: RoostId,
    pub server: EndpointId,
    pub client: EndpointId,
    pub connection_binding: Vec<u8>,
    pub challenge: Challenge,
    pub kind: AdmissionRequestKind,
}

#[derive(Clone, Debug, PartialEq, Eq)]
pub struct SignedAdmissionAuthProof {
    pub proof: AdmissionAuthProof,
    pub signature: Signature,
}

#[derive(Clone, Debug, PartialEq, Eq)]
pub struct AdmissionRequest {
    pub auth: SignedAdmissionAuthProof,
    pub capability: AdmissionCapability,
}

/// Proof of an invitation secret for an epoch, without the secret.
#[derive(Clone, Copy, Debug, PartialEq, Eq)]
pub struct AdmissionCapability {
    pub epoch: u64,
    pub digest: [u8; 32],
}

#[derive(Clone, Debug, PartialEq, Eq)]
pub struct MembershipCertificate {
    pub major: u16,
    pub roost_id: RoostId,
    pub member: EndpointId,
    pub issuer: EndpointId,
    pub membership_epoch: u64,
    pub auth_generation: u64,
    pub issued_at_unix_ms: u64,
    pub expires_at_unix_ms: u64,
}

#[derive(Clone, Debug)]
pub struct SignedMembershipCertificate {
    pub certificate: MembershipCertificate,
    pub signature: Signature,
}

/// Application policy that a certificate is checked against.
pub trait MembershipValidationHooks {
    fn issuer_was_authorized(&self, roost_id: &RoostId, epoch: u64, issuer: &EndpointId) -> Result<(), String>;

    fn member_generation_is_current(&self, roost_id: &RoostId, member: &EndpointId, generation: u64) -> Result<(), String>;
}

#[derive(Clone, Debug, PartialEq, Eq)]
pub enum AdmissionError {
    CapacityZero,
    LifetimeZero,
    /// The clock reads before 1970 or too far after it.
    ClockOutOfRange,
    ChallengeExists,
    LifetimeTooLarge,
    ExpiryOverflow,
    UnsupportedMajor,
    RoostIdZero,
    BindingEmpty,
    BindingTooLarge,
    ClientMismatch,
    IssuerMismatch,
    InvalidSignature,
    InvalidCapabilitySecret,
    InvalidCertificateLifetime,
    NotCurrentlyValid,
    /// An application hook refused, with its reason.
    Policy(String),
}

pub open spec fn kind_bytes(k: AdmissionRequestKind) -> Seq<u8> {
    match k {
        AdmissionRequestKind::Join => seq![0u8],
        AdmissionRequestKind::Renew => seq![1u8],
    }
}

pub open spec fn proof_shape_result(p: AdmissionAuthProof) -> Result<(), AdmissionError> {
    if p.major != PROTOCOL_MAJOR {
        Err(AdmissionError::UnsupportedMajor)
    } else if all_zero(p.roost_id.0@) {
        Err(AdmissionError::RoostIdZero)
    } else if p.connection_binding@.len() == 0 {
        Err(AdmissionError::BindingEmpty)
    } else if p.connection_binding@.len() > MAX_CONNECTION_BINDING_BYTES {
        Err(AdmissionError::BindingTooLarge)
    } else {
        Ok(())
    }
}

pub open spec fn proof_bytes(p: AdmissionAuthProof) -> Seq<u8> {
    varint(p.major as nat) + p.roost_id.0@ + p.server.0@ + p.client.0@ + bytes_field(p.connection_binding@)
        + p.challenge@ + kind_bytes(p.kind)
}

pub open spec fn proof_signing_bytes(p: AdmissionAuthProof) -> Seq<u8> {
    "starling/admission-auth-proof/v1\0".spec_bytes() + proof_bytes(p)
}

pub open spec fn proof_verify_result(s: SignedAdmissionAuthProof) -> Result<(), AdmissionError> {
    if proof_shape_result(s.proof) is Err {
        proof_shape_result(s.proof)
    } else if !spec_ed25519_verify(s.proof.client.0@, proof_signing_bytes(s.proof), s.signature.0@) {
        Err(AdmissionError::InvalidSignature)
    } else {
        Ok(())
    }
}

pub open spec fn certificate_shape_result(c: MembershipCertificate) -> Result<(), AdmissionError> {
    if c.major != PROTOCOL_MAJOR {
        Err(AdmissionError::UnsupportedMajor)
    } else if all_zero(c.roost_id.0@) {
        Err(AdmissionError::RoostIdZero)
    } else if !(c.issued_at_unix_ms < c.expires_at_unix_ms) {
        Err(AdmissionError::InvalidCertificateLifetime)
    } else {
        Ok(())
    }
}

pub open spec fn certificate_bytes(c: MembershipCertificate) -> Seq<u8> {
    varint(c.major as nat) + c.roost_id.0@ + c.member.0@ + c.issuer.0@ + varint(c.membership_epoch as nat)
        + varint(c.auth_generation as nat) + varint(c.issued_at_unix_ms as nat) + varint(c.expires_at_unix_ms as nat)
}

pub open spec fn certificate_signing_bytes(c: MembershipCertificate) -> Seq<u8> {
    "starling/membership-certificate/v1\0".spec_bytes() + certificate_bytes(c)
}

pub open spec fn certificate_verify_result(s: SignedMembershipCertificate) -> Result<(), AdmissionError> {
    if certificate_shape_result(s.certificate) is Err {
        certificate_shape_result(s.certificate)
    } else if !spec_ed25519_verify(s.certificate.issuer.0@, certificate_signing_bytes(s.certificate), s.signature.0@) {
        Err(AdmissionError::InvalidSignature)
    } else {
        Ok(())
    }
}

/// The certificate is valid at `now`: issued at or before it, expiring after.
pub open spec fn currently_valid(c: MembershipCertificate, now: u64) -> bool {
    c.issued_at_unix_ms <= now && now < c.expires_at_unix_ms
}

/// The eight big-endian bytes of `n`.
pub open spec fn be64(n: u64) -> Seq<u8> {
    seq![(n >> 56) as u8, (n >> 48) as u8, (n >> 40) as u8, (n >> 32) as u8,
        (n >> 24) as u8, (n >> 16) as u8, (n >> 8) as u8, n as u8]
}

/// The digest a capability holds: SHA-256 over a domain tag, the epoch, the
/// secret's length and the secret.
pub open spec fn capability_digest_spec(epoch: u64, secret: Seq<u8>) -> Seq<u8> {
    spec_sha256("starling/admission-capability/v1\0".spec_bytes() + be64(epoch) + be64(secret.len() as u64) + secret)
}

pub open spec fn secret_length_ok(secret: Seq<u8>) -> bool {
    0 < secret.len() <= MAX_CAPABILITY_BYTES
}

/// Whether a capability accepts a presented secret.
pub open spec fn capability_accepts(c: AdmissionCapability, secret: Seq<u8>) -> bool {
    secret_length_ok(secret) && c.digest@ == capability_digest_spec(c.epoch, secret)
}

pub fn push_be64(out: &mut Vec<u8>, n: u64)
    ensures
        final(out)@ == old(out)@ + be64(n),
{
    out.push((n >> 56) as u8);
    out.push((n >> 48) as u8);
    out.push((n >> 40) as u8);
    out.push((n >> 32) as u8);
    out.push((n >> 24) as u8);
    out.push((n >> 16) as u8);
    out.push((n >> 8) as u8);
    out.push(n as u8);
    assert(final(out)@ =~= old(out)@ + be64(n));
}

fn capability_digest(epoch: u64, secret: &[u8]) -> (d: [u8; 32])
    ensures
        d@ == capability_digest_spec(epoch, secret@),
{
    let mut buf: Vec<u8> = Vec::new();
    push_text(&mut buf, "starling/admission-capability/v1\0");
    push_be64(&mut buf, epoch);
    push_be64(&mut buf, secret.len() as u64);
    push_raw(&mut buf, secret);
    sha256(buf.as_slice())
}

/// Equality of two digests, looking at every byte whatever the first
/// difference.
pub fn constant_time_eq(left: &[u8; 32], right: &[u8; 32]) -> (eq: bool)
    ensures
        eq == (left@ == right@),
{
    let mut diff: u8 = 0;
    let mut i: usize = 0;
    while i < 32
        invariant
            0 <= i <= 32,
            left@.len() == 32,
            right@.len() == 32,
            (diff == 0) <==> (forall|j: int| 0 <= j < i ==> left@[j] == right@[j]),
        decreases 32 - i,
    {
        let a = left[i];
        let b = right[i];
        assert(((diff | (a ^ b)) == 0u8) <==> (diff == 0u8 && a == b)) by (bit_vector);
        diff = diff | (a ^ b);
        i += 1;
    }
    proof {
        if diff == 0 {
            assert(left@ =~= right@);
        }
    }
    diff == 0
}

impl AdmissionCapability {
    pub fn derive(epoch: u64, secret: &[u8]) -> (r: Result<AdmissionCapability, AdmissionError>)
        ensures
            !secret_length_ok(secret@) ==> r == Err::<AdmissionCapability, AdmissionError>(AdmissionError::InvalidCapabilitySecret),
            secret_length_ok(secret@) ==> (r matches Ok(c) && c.epoch == epoch && c.digest@ == capability_digest_spec(epoch, secret@)),
    {
        if secret.len() == 0 || secret.len() > MAX_CAPABILITY_BYTES {
            return Err(AdmissionError::InvalidCapabilitySecret);
        }
        let digest = capability_digest(epoch, secret);
        Ok(AdmissionCapability { epoch, digest })
    }

    pub fn verify(&self, secret: &[u8]) -> (ok: bool)
        ensures
            ok == capability_accepts(*self, secret@),
    {
        if secret.len() == 0 || secret.len() > MAX_CAPABILITY_BYTES {
            return false;
        }
        constant_time_eq(&self.digest, &capability_digest(self.epoch, secret))
    }
}

/// A capability derived from a secret accepts that secret.
pub proof fn lemma_capability_accepts_own_secret(c: AdmissionCapability, epoch: u64, secret: Seq<u8>)
    requires
        secret_length_ok(secret),
        c.epoch == epoch,
        c.digest@ == capability_digest_spec(epoch, secret),
    ensures
        capability_accepts(c, secret),
{
}

fn push_kind(out: &mut Vec<u8>, k: AdmissionRequestKind)
    ensures
        final(out)@ == old(out)@ + kind_bytes(k),
{
    match k {
        AdmissionRequestKind::Join => out.push(0u8),
        AdmissionRequestKind::Renew => out.push(1u8),
    }
    assert(final(out)@ =~= old(out)@ + kind_bytes(k));
}

impl AdmissionAuthProof {
    pub fn validate_shape(&self) -> (r: Result<(), AdmissionError>)
        ensures
            r == proof_shape_result(*self),
    {
        if self.major != PROTOCOL_MAJOR {
            return Err(AdmissionError::UnsupportedMajor);
        }
        if is_all_zero(&self.roost_id.0) {
            return Err(AdmissionError::RoostIdZero);
        }
        if self.connection_binding.len() == 0 {
            return Err(AdmissionError::BindingEmpty);
        }
        if self.connection_binding.len() > MAX_CONNECTION_BINDING_BYTES {
            return Err(AdmissionError::BindingTooLarge);
        }
        Ok(())
    }

    pub fn signing_bytes(&self) -> (r: Result<Vec<u8>, AdmissionError>)
        ensures
            r is Ok <==> proof_shape_result(*self) is Ok,
            r matches Err(e) ==> proof_shape_result(*self) == Err::<(), AdmissionError>(e),
            r matches Ok(b) ==> b@ == proof_signing_bytes(*self),
    {
        let s = self.validate_shape();
        match s {
            Err(e) => Err(e),
            Ok(()) => {
                let mut out: Vec<u8> = Vec::new();
                push_text(&mut out, "starling/admission-auth-proof/v1\0");
                push_varint(&mut out, self.major as u64);
                push_raw(&mut out, &self.roost_id.0);
                push_raw(&mut out, &self.server.0);
                push_raw(&mut out, &self.client.0);
                push_bytes_field(&mut out, self.connection_binding.as_slice());
                push_raw(&mut out, &self.challenge);
                push_kind(&mut out, self.kind);
                assert(out@ =~= proof_signing_bytes(*self));
                Ok(out)
            },
        }
    }

    /// Signs the proof with the client's key.
    pub fn sign(self, key: &SecretKey) -> (r: Result<SignedAdmissionAuthProof, AdmissionError>)
        ensures
            self.client.0@ != spec_ed25519_public(key.bytes()) ==> r == Err::<SignedAdmissionAuthProof, AdmissionError>(AdmissionError::ClientMismatch),
            self.client.0@ == spec_ed25519_public(key.bytes()) && proof_shape_result(self) is Err ==> (r matches Err(e) && proof_shape_result(self) == Err::<(), AdmissionError>(e)),
            self.client.0@ == spec_ed25519_public(key.bytes()) && proof_shape_result(self) is Ok ==> r is Ok,
            r matches Ok(s) ==> (s.proof == self && s.signature.0@ == spec_ed25519_sign(key.bytes(), proof_signing_bytes(self))
                && proof_verify_result(s) is Ok),
    {
        let public = key.public();
        if !bytes32_eq(&self.client.0, &public.0) {
            return Err(AdmissionError::ClientMismatch);
        }
        let bytes = self.signing_bytes();
        match bytes {
            Err(e) => Err(e),
            Ok(b) => {
                let signature = key.sign(b.as_slice());
                Ok(SignedAdmissionAuthProof { proof: self, signature })
            },
        }
    }
}

impl SignedAdmissionAuthProof {
    pub fn verify(&self) -> (r: Result<(), AdmissionError>)
        ensures
            r == proof_verify_result(*self),
    {
        let bytes = self.proof.signing_bytes();
        match bytes {
            Err(e) => Err(e),
            Ok(b) => {
                if ed25519_verify(&self.proof.client, b.as_slice(), &self.signature) {
                    Ok(())
                } else {
                    Err(AdmissionError::InvalidSignature)
                }
            },
        }
    }
}

impl MembershipCertificate {
    pub fn validate_shape(&self) -> (r: Result<(), AdmissionError>)
        ensures
            r == certificate_shape_result(*self),
    {
        if self.major != PROTOCOL_MAJOR {
            return Err(AdmissionError::UnsupportedMajor);
        }
        if is_all_zero(&self.roost_id.0) {
            return Err(AdmissionError::RoostIdZero);
        }
        if !(self.issued_at_unix_ms < self.expires_at_unix_ms) {
            return Err(AdmissionError::InvalidCertificateLifetime);
        }
        Ok(())
    }

    pub fn signing_bytes(&self) -> (r: Result<Vec<u8>, AdmissionError>)
        ensures
            r is Ok <==> certificate_shape_result(*self) is Ok,
            r matches Err(e) ==> certificate_shape_result(*self) == Err::<(), AdmissionError>(e),
            r matches Ok(b) ==> b@ == certificate_signing_bytes(*self),
    {
        let s = self.validate_shape();
        match s {
            Err(e) => Err(e),
            Ok(()) => {
                let mut out: Vec<u8> = Vec::new();
                push_text(&mut out, "starling/membership-certificate/v1\0");
                push_varint(&mut out, self.major as u64);
                push_raw(&mut out, &self.roost_id.0);
                push_raw(&mut out, &self.member.0);
                push_raw(&mut out, &self.issuer.0);
                push_varint(&mut out, self.membership_epoch);
                push_varint(&mut out, self.auth_generation);
                push_varint(&mut out, self.issued_at_unix_ms);
                push_varint(&mut out, self.expires_at_unix_ms);
                assert(out@ =~= certificate_signing_bytes(*self));
                Ok(out)
            },
        }
    }

    /// Signs the certificate with the issuer's key.
    pub fn sign(self, key: &SecretKey) -> (r: Result<SignedMembershipCertificate, AdmissionError>)
        ensures
            self.issuer.0@ != spec_ed25519_public(key.bytes()) ==> r == Err::<SignedMembershipCertificate, AdmissionError>(AdmissionError::IssuerMismatch),
            self.issuer.0@ == spec_ed25519_public(key.bytes()) && certificate_shape_result(self) is Err ==> (r matches Err(e) && certificate_shape_result(self) == Err::<(), AdmissionError>(e)),
            self.issuer.0@ == spec_ed25519_public(key.bytes()) && certificate_shape_result(self) is Ok ==> r is Ok,
            r matches Ok(s) ==> (s.certificate == self && s.signature.0@ == spec_ed25519_sign(key.bytes(), certificate_signing_bytes(self))
                && certificate_verify_result(s) is Ok),
    {
        let public = key.public();
        if !bytes32_eq(&self.issuer.0, &public.0) {
            return Err(AdmissionError::IssuerMismatch);
        }
        let bytes = self.signing_bytes();
        match bytes {
            Err(e) => Err(e),
            Ok(b) => {
                let signature = key.sign(b.as_slice());
                Ok(SignedMembershipCertificate { certificate: self, signature })
            },
        }
    }
}

impl SignedMembershipCertificate {
    pub fn verify(&self) -> (r: Result<(), AdmissionError>)
        ensures
            r == certificate_verify_result(*self),
    {
        let bytes = self.certificate.signing_bytes();
        match bytes {
            Err(e) => Err(e),
            Ok(b) => {
                if ed25519_verify(&self.certificate.issuer, b.as_slice(), &self.signature) {
                    Ok(())
                } else {
                    Err(AdmissionError::InvalidSignature)
                }
            },
        }
    }

    /// Verifies the certificate, checks it is valid at `now_unix_ms`, and
    /// asks the application about the issuer and the member's generation.
    pub fn validate_with<H: MembershipValidationHooks>(&self, now_unix_ms: u64, hooks: &H) -> (r: Result<(), AdmissionError>)
        ensures
            certificate_verify_result(*self) is Err ==> r == certificate_verify_result(*self),
            certificate_verify_result(*self) is Ok && !currently_valid(self.certificate, now_unix_ms)
                ==> r == Err::<(), AdmissionError>(AdmissionError::NotCurrentlyValid),
            r is Ok ==> certificate_verify_result(*self) is Ok && currently_valid(self.certificate, now_unix_ms),
    {
        let v = self.verify();
        if v.is_err() {
            return v;
        }
        if !(now_unix_ms >= self.certificate.issued_at_unix_ms && now_unix_ms < self.certificate.expires_at_unix_ms) {
            return Err(AdmissionError::NotCurrentlyValid);
        }
        let issuer = hooks.issuer_was_authorized(&self.certificate.roost_id, self.certificate.membership_epoch, &self.certificate.issuer);
        if let Err(reason) = issuer {
            return Err(AdmissionError::Policy(reason));
        }
        let generation = hooks.member_generation_is_current(&self.certificate.roost_id, &self.certificate.member, self.certificate.auth_generation);
        match generation {
            Err(reason) => Err(AdmissionError::Policy(reason)),
            Ok(()) => Ok(()),
        }
    }
}

/// A challenge and the Unix millisecond at which it expires.
pub type ChallengeEntry = ([u8; 32], u64);

/// The entries still live at `now`: those expiring after it, in order.
pub open spec fn live(s: Seq<ChallengeEntry>, now: u64) -> Seq<ChallengeEntry>
    decreases s.len(),
{
    if s.len() == 0 {
        s
    } else if s.last().1 > now {
        live(s.drop_last(), now).push(s.last())
    } else {
        live(s.drop_last(), now)
    }
}

/// The entries other than challenge `c`, in order.
pub open spec fn without(s: Seq<ChallengeEntry>, c: Challenge) -> Seq<ChallengeEntry>
    decreases s.len(),
{
    if s.len() == 0 {
        s
    } else if s.last().0 != c {
        without(s.drop_last(), c).push(s.last())
    } else {
        without(s.drop_last(), c)
    }
}

pub open spec fn holds(s: Seq<ChallengeEntry>, c: Challenge) -> bool {
    exists|i: int| 0 <= i < s.len() && #[trigger] s[i].0 == c
}

pub open spec fn unique_challenges(s: Seq<ChallengeEntry>) -> bool {
    forall|i: int, j: int| 0 <= i < s.len() && 0 <= j < s.len() && i != j ==> s[i].0 != s[j].0
}

/// The newest entries that leave room for one more under `capacity`.
pub open spec fn make_room(s: Seq<ChallengeEntry>, capacity: nat) -> Seq<ChallengeEntry> {
    if s.len() >= capacity {
        s.skip(s.len() - capacity + 1)
    } else {
        s
    }
}

/// Milliseconds in a duration of `secs` seconds and `nanos` nanoseconds,
/// rounded down.
pub open spec fn duration_ms(secs: u64, nanos: u32) -> int {
    secs * 1000 + nanos / 1_000_000
}

/// The entries after issuing `c` at `now`, and what issuing returns.
pub open spec fn issue_spec(s: Seq<ChallengeEntry>, capacity: nat, lifetime_ms: int, c: Challenge, now: u64)
    -> (Seq<ChallengeEntry>, Result<u64, AdmissionError>)
{
    let p = live(s, now);
    if holds(p, c) {
        (p, Err(AdmissionError::ChallengeExists))
    } else if lifetime_ms > u64::MAX {
        (make_room(p, capacity), Err(AdmissionError::LifetimeTooLarge))
    } else if now + lifetime_ms > u64::MAX {
        (make_room(p, capacity), Err(AdmissionError::ExpiryOverflow))
    } else {
        (make_room(p, capacity).push((c, (now + lifetime_ms) as u64)), Ok((now + lifetime_ms) as u64))
    }
}

/// The entries after consuming `c` at `now`, and whether it was live.
pub open spec fn consume_spec(s: Seq<ChallengeEntry>, c: Challenge, now: u64) -> (Seq<ChallengeEntry>, bool) {
    let p = live(s, now);
    (without(p, c), holds(p, c))
}

pub proof fn lemma_live_sub(s: Seq<ChallengeEntry>, now: u64)
    ensures
        forall|e: ChallengeEntry| live(s, now).contains(e) <==> (s.contains(e) && e.1 > now),
        unique_challenges(s) ==> unique_challenges(live(s, now)),
        live(s, now).len() <= s.len(),
    decreases s.len(),
{
    if s.len() > 0 {
        let d = s.drop_last();
        lemma_live_sub(d, now);
        let p = live(d, now);
        assert forall|e: ChallengeEntry| live(s, now).contains(e) <==> (s.contains(e) && e.1 > now) by {
            if s.contains(e) {
                let i = choose|i: int| 0 <= i < s.len() && s[i] == e;
                if i < s.len() - 1 {
                    assert(d[i] == e);
                    assert(d.contains(e));
                }
            }
            if d.contains(e) {
                let i = choose|i: int| 0 <= i < d.len() && d[i] == e;
                assert(s[i] == e);
            }
            if s.last().1 > now {
                if p.push(s.last()).contains(e) {
                    let i = choose|i: int| 0 <= i < p.len() + 1 && p.push(s.last())[i] == e;
                    if i < p.len() {
                        assert(p[i] == e);
                        assert(p.contains(e));
                    }
                }
                if p.contains(e) {
                    let i = choose|i: int| 0 <= i < p.len() && p[i] == e;
                    assert(p.push(s.last())[i] == e);
                }
                if e == s.last() {
                    assert(p.push(s.last())[p.len() as int] == e);
                }
            }
            if s.contains(e) && e.1 > now && e != s.last() {
                let i = choose|i: int| 0 <= i < s.len() && s[i] == e;
                assert(i != s.len() - 1);
                assert(d[i] == e);
            }
        }
        if unique_challenges(s) {
            assert(unique_challenges(d)) by {
                assert forall|i: int, j: int| 0 <= i < d.len() && 0 <= j < d.len() && i != j implies d[i].0 != d[j].0 by {
                    assert(d[i] == s[i] && d[j] == s[j]);
                }
            }
            if s.last().1 > now {
                let q = p.push(s.last());
                assert forall|i: int, j: int| 0 <= i < q.len() && 0 <= j < q.len() && i != j implies q[i].0 != q[j].0 by {
                    if i < p.len() && j < p.len() {
                        assert(q[i] == p[i] && q[j] == p[j]);
                    } else if i < p.len() {
                        assert(p.contains(p[i]));
                        assert(d.contains(p[i]));
                        let k = choose|k: int| 0 <= k < d.len() && d[k] == p[i];
                        assert(s[k] == d[k]);
                        assert(s[s.len() - 1] == s.last());
                    } else if j < p.len() {
                        assert(p.contains(p[j]));
                        assert(d.contains(p[j]));
                        let k = choose|k: int| 0 <= k < d.len() && d[k] == p[j];
                        assert(s[k] == d[k]);
                        assert(s[s.len() - 1] == s.last());
                    }
                }
            }
        }
    }
}

pub proof fn lemma_without_sub(s: Seq<ChallengeEntry>, c: Challenge)
    ensures
        forall|e: ChallengeEntry| without(s, c).contains(e) <==> (s.contains(e) && e.0 != c),
        !holds(without(s, c), c),
        unique_challenges(s) ==> unique_challenges(without(s, c)),
        without(s, c).len() <= s.len(),
    decreases s.len(),
{
    if s.len() > 0 {
        let d = s.drop_last();
        lemma_without_sub(d, c);
        let p = without(d, c);
        assert forall|e: ChallengeEntry| without(s, c).contains(e) <==> (s.contains(e) && e.0 != c) by {
            if s.contains(e) {
                let i = choose|i: int| 0 <= i < s.len() && s[i] == e;
                if i < s.len() - 1 {
                    assert(d[i] == e);
                    assert(d.contains(e));
                }
            }
            if d.contains(e) {
                let i = choose|i: int| 0 <= i < d.len() && d[i] == e;
                assert(s[i] == e);
            }
            if s.last().0 != c {
                if p.push(s.last()).contains(e) {
                    let i = choose|i: int| 0 <= i < p.len() + 1 && p.push(s.last())[i] == e;
                    if i < p.len() {
                        assert(p[i] == e);
                        assert(p.contains(e));
                    }
                }
                if p.contains(e) {
                    let i = choose|i: int| 0 <= i < p.len() && p[i] == e;
                    assert(p.push(s.last())[i] == e);
                }
                if e == s.last() {
                    assert(p.push(s.last())[p.len() as int] == e);
                }
            }
            if s.contains(e) && e.0 != c && e != s.last() {
                let i = choose|i: int| 0 <= i < s.len() && s[i] == e;
                assert(i != s.len() - 1);
                assert(d[i] == e);
            }
        }
        assert(!holds(without(s, c), c)) by {
            if holds(without(s, c), c) {
                let i = choose|i: int| 0 <= i < without(s, c).len() && #[trigger] without(s, c)[i].0 == c;
                assert(without(s, c).contains(without(s, c)[i]));
            }
        }
        if unique_challenges(s) {
            assert(unique_challenges(d)) by {
                assert forall|i: int, j: int| 0 <= i < d.len() && 0 <= j < d.len() && i != j implies d[i].0 != d[j].0 by {
                    assert(d[i] == s[i] && d[j] == s[j]);
                }
            }
            if s.last().0 != c {
                let q = p.push(s.last());
                assert forall|i: int, j: int| 0 <= i < q.len() && 0 <= j < q.len() && i != j implies q[i].0 != q[j].0 by {
                    if i < p.len() && j < p.len() {
                        assert(q[i] == p[i] && q[j] == p[j]);
                    } else if i < p.len() {
                        assert(p.contains(p[i]));
                        assert(d.contains(p[i]));
                        let k = choose|k: int| 0 <= k < d.len() && d[k] == p[i];
                        assert(s[k] == d[k]);
                        assert(s[s.len() - 1] == s.last());
                    } else if j < p.len() {
                        assert(p.contains(p[j]));
                        assert(d.contains(p[j]));
                        let k = choose|k: int| 0 <= k < d.len() && d[k] == p[j];
                        assert(s[k] == d[k]);
                        assert(s[s.len() - 1] == s.last());
                    }
                }
            }
        }
    }
}

/// Bounded, expiring, one-use challenges: at most `capacity` are kept, the
/// oldest are evicted first, and each is accepted at most once before it
/// expires.
pub struct ChallengeStore {
    capacity: usize,
    lifetime_secs: u64,
    lifetime_nanos: u32,
    entries: Vec<ChallengeEntry>,
}

impl ChallengeStore {
    pub closed spec fn capacity(&self) -> nat {
        self.capacity as nat
    }

    pub closed spec fn lifetime_ms(&self) -> int {
        duration_ms(self.lifetime_secs, self.lifetime_nanos)
    }

    /// The live challenges with their expiries, oldest first.
    pub closed spec fn entries(&self) -> Seq<ChallengeEntry> {
        self.entries@
    }

    pub closed spec fn wf(&self) -> bool {
        &&& self.capacity > 0
        &&& !(self.lifetime_secs == 0 && self.lifetime_nanos == 0)
        &&& self.lifetime_nanos < 1_000_000_000
        &&& self.entries@.len() <= self.capacity
        &&& unique_challenges(self.entries@)
    }

    /// A store for `capacity` challenges living `secs` seconds and `nanos`
    /// nanoseconds each.
    pub fn with_lifetime(capacity: usize, secs: u64, nanos: u32) -> (r: Result<ChallengeStore, AdmissionError>)
        requires
            nanos < 1_000_000_000,
        ensures
            capacity == 0 ==> r == Err::<ChallengeStore, AdmissionError>(AdmissionError::CapacityZero),
            capacity > 0 && secs == 0 && nanos == 0 ==> r == Err::<ChallengeStore, AdmissionError>(AdmissionError::LifetimeZero),
            capacity > 0 && !(secs == 0 && nanos == 0) ==> (r matches Ok(s) && s.wf() && s.capacity() == capacity
                && s.lifetime_ms() == duration_ms(secs, nanos) && s.entries().len() == 0),
    {
        if capacity == 0 {
            return Err(AdmissionError::CapacityZero);
        }
        if secs == 0 && nanos == 0 {
            return Err(AdmissionError::LifetimeZero);
        }
        Ok(ChallengeStore { capacity, lifetime_secs: secs, lifetime_nanos: nanos, entries: Vec::new() })
    }

    /// A store for `capacity` challenges living `lifetime` each.
    pub fn new(capacity: usize, lifetime: Duration) -> (r: Result<ChallengeStore, AdmissionError>)
        ensures
            capacity == 0 ==> r == Err::<ChallengeStore, AdmissionError>(AdmissionError::CapacityZero),
            r is Err ==> r == Err::<ChallengeStore, AdmissionError>(AdmissionError::CapacityZero)
                || r == Err::<ChallengeStore, AdmissionError>(AdmissionError::LifetimeZero),
            capacity > 0 && spec_duration_secs(lifetime) == 0 && spec_duration_subsec_nanos(lifetime) == 0
                ==> r == Err::<ChallengeStore, AdmissionError>(AdmissionError::LifetimeZero),
            capacity > 0 && !(spec_duration_secs(lifetime) == 0 && spec_duration_subsec_nanos(lifetime) == 0) ==> (r matches Ok(s)
                && s.lifetime_ms() == duration_ms(spec_duration_secs(lifetime), spec_duration_subsec_nanos(lifetime))),
            r matches Ok(s) ==> s.wf() && s.capacity() == capacity && s.entries().len() == 0,
    {
        let secs = duration_secs(&lifetime);
        let nanos = duration_subsec_nanos(&lifetime);
        Self::with_lifetime(capacity, secs, nanos)
    }

    fn purge(&mut self, now_ms: u64)
        requires
            old(self).wf(),
        ensures
            final(self).wf(),
            final(self).entries() == live(old(self).entries(), now_ms),
            final(self).capacity == old(self).capacity,
            final(self).lifetime_secs == old(self).lifetime_secs,
            final(self).lifetime_nanos == old(self).lifetime_nanos,
    {
        let mut out: Vec<ChallengeEntry> = Vec::new();
        let mut i: usize = 0;
        while i < self.entries.len()
            invariant
                0 <= i <= self.entries@.len(),
                out@ == live(self.entries@.take(i as int), now_ms),
            decreases self.entries.len() - i,
        {
            let e = self.entries[i];
            if e.1 > now_ms {
                out.push(e);
            }
            assert(self.entries@.take(i + 1).drop_last() =~= self.entries@.take(i as int));
            i += 1;
        }
        assert(self.entries@.take(self.entries@.len() as int) =~= self.entries@);
        proof {
            lemma_live_sub(self.entries@, now_ms);
        }
        self.entries = out;
    }

    fn position(&self, c: &Challenge) -> (r: Option<usize>)
        ensures
            r is None <==> !holds(self.entries@, *c),
            r matches Some(i) ==> i < self.entries@.len() && self.entries@[i as int].0 == *c,
    {
        let mut i: usize = 0;
        while i < self.entries.len()
            invariant
                0 <= i <= self.entries@.len(),
                forall|j: int| 0 <= j < i ==> #[trigger] self.entries@[j].0 != *c,
            decreases self.entries.len() - i,
        {
            if bytes32_eq(&self.entries[i].0, c) {
                assert(self.entries@[i as int].0 =~= *c);
                return Some(i);
            }
            proof {
                if self.entries@[i as int].0 == *c {
                    assert(self.entries@[i as int].0@ == c@);
                }
            }
            i += 1;
        }
        None
    }

    /// Issues `challenge` at Unix millisecond `now_ms`: drops what expired,
    /// refuses a live duplicate, evicts the oldest to make room, and
    /// records the challenge with its expiry, which it returns.
    pub fn issue_at(&mut self, challenge: Challenge, now_ms: u64) -> (r: Result<u64, AdmissionError>)
        requires
            old(self).wf(),
        ensures
            final(self).wf(),
            final(self).capacity() == old(self).capacity(),
            final(self).lifetime_ms() == old(self).lifetime_ms(),
            (final(self).entries(), r) == issue_spec(old(self).entries(), old(self).capacity(), old(self).lifetime_ms(), challenge, now_ms),
    {
        self.purge(now_ms);
        let ghost p = self.entries@;
        if self.position(&challenge).is_some() {
            return Err(AdmissionError::ChallengeExists);
        }
        let n = self.entries.len();
        if n >= self.capacity {
            let start = n - self.capacity + 1;
            let mut kept: Vec<ChallengeEntry> = Vec::new();
            let mut i: usize = start;
            while i < n
                invariant
                    start <= i <= n,
                    n == self.entries@.len(),
                    kept@ == self.entries@.subrange(start as int, i as int),
                decreases n - i,
            {
                kept.push(self.entries[i]);
                assert(self.entries@.subrange(start as int, i + 1) =~= self.entries@.subrange(start as int, i as int).push(self.entries@[i as int]));
                i += 1;
            }
            assert(kept@ =~= p.skip(start as int));
            proof {
                assert forall|a: int, b: int| 0 <= a < kept@.len() && 0 <= b < kept@.len() && a != b implies kept@[a].0 != kept@[b].0 by {
                    assert(kept@[a] == p[a + start] && kept@[b] == p[b + start]);
                }
            }
            self.entries = kept;
        }
        let ghost room = self.entries@;
        assert(room == make_room(p, self.capacity as nat));
        let lifetime_ms: u128 = (self.lifetime_secs as u128) * 1000 + (self.lifetime_nanos / 1_000_000) as u128;
        if lifetime_ms > u64::MAX as u128 {
            return Err(AdmissionError::LifetimeTooLarge);
        }
        let lt = lifetime_ms as u64;
        if now_ms > u64::MAX - lt {
            return Err(AdmissionError::ExpiryOverflow);
        }
        let expiry = now_ms + lt;
        proof {
            assert forall|i: int| 0 <= i < room.len() implies #[trigger] room[i].0 != challenge by {
                if room[i].0 == challenge {
                    if n >= self.capacity {
                        assert(room[i] == p[i + (n - self.capacity + 1)]);
                        assert(holds(p, challenge));
                    } else {
                        assert(holds(p, challenge));
                    }
                }
            }
        }
        self.entries.push((challenge, expiry));
        proof {
            let q = self.entries@;
            assert forall|a: int, b: int| 0 <= a < q.len() && 0 <= b < q.len() && a != b implies q[a].0 != q[b].0 by {
                if a < room.len() && b < room.len() {
                    assert(q[a] == room[a] && q[b] == room[b]);
                } else if a < room.len() {
                    assert(q[a] == room[a]);
                } else if b < room.len() {
                    assert(q[b] == room[b]);
                }
            }
        }
        Ok(expiry)
    }

    /// Consumes `challenge` at Unix millisecond `now_ms`: drops what
    /// expired, then removes the challenge and says whether it was live.
    /// A failed or expired challenge cannot be replayed.
    pub fn consume_at(&mut self, challenge: &Challenge, now_ms: u64) -> (ok: bool)
        requires
            old(self).wf(),
        ensures
            final(self).wf(),
            final(self).capacity() == old(self).capacity(),
            final(self).lifetime_ms() == old(self).lifetime_ms(),
            (final(self).entries(), ok) == consume_spec(old(self).entries(), *challenge, now_ms),
    {
        self.purge(now_ms);
        let found = self.position(challenge).is_some();
        let mut out: Vec<ChallengeEntry> = Vec::new();
        let mut i: usize = 0;
        while i < self.entries.len()
            invariant
                0 <= i <= self.entries@.len(),
                out@ == without(self.entries@.take(i as int), *challenge),
            decreases self.entries.len() - i,
        {
            let e = self.entries[i];
            let same = bytes32_eq(&e.0, challenge);
            proof {
                if same {
                    assert(e.0 =~= *challenge);
                } else if e.0 == *challenge {
                    assert(e.0@ == challenge@);
                }
            }
            if !same {
                out.push(e);
            }
            assert(self.entries@.take(i + 1).drop_last() =~= self.entries@.take(i as int));
            i += 1;
        }
        assert(self.entries@.take(self.entries@.len() as int) =~= self.entries@);
        proof {
            lemma_without_sub(self.entries@, *challenge);
        }
        self.entries = out;
        found
    }

    pub fn len(&self) -> (n: usize)
        ensures
            n == self.entries().len(),
    {
        self.entries.len()
    }

    pub fn is_empty(&self) -> (e: bool)
        ensures
            e == (self.entries().len() == 0),
    {
        self.entries.len() == 0
    }
}

#[verifier::external_type_specification]
#[verifier::external_body]
pub struct ExSystemTime(SystemTime);

/// The whole seconds of a duration, as `Duration::as_secs` gives them.
pub uninterp spec fn spec_duration_secs(d: Duration) -> u64;

/// The nanoseconds of a duration past its whole seconds, as
/// `Duration::subsec_nanos` gives them.
pub uninterp spec fn spec_duration_subsec_nanos(d: Duration) -> u32;

/// The time from the Unix epoch to `t`, as
/// `SystemTime::duration_since(UNIX_EPOCH)` gives it; `None` for a time
/// before the epoch.
pub uninterp spec fn spec_since_unix_epoch(t: SystemTime) -> Option<Duration>;

/// The whole seconds of a duration: wraps `Duration::as_secs`.
#[verifier::external_body]
fn duration_secs(d: &Duration) -> (s: u64)
    ensures
        s == spec_duration_secs(*d),
{
    d.as_secs()
}

/// The nanoseconds past the whole seconds: wraps `Duration::subsec_nanos`,
/// which is documented to stay under one billion.
#[verifier::external_body]
fn duration_subsec_nanos(d: &Duration) -> (n: u32)
    ensures
        n == spec_duration_subsec_nanos(*d),
        n < 1_000_000_000,
{
    d.subsec_nanos()
}

/// The time elapsed since the Unix epoch: wraps
/// `SystemTime::duration_since(UNIX_EPOCH)`; `None` for a time before it.
#[verifier::external_body]
fn since_unix_epoch(t: &SystemTime) -> (r: Option<Duration>)
    ensures
        r == spec_since_unix_epoch(*t),
{
    t.duration_since(std::time::UNIX_EPOCH).ok()
}

/// Whole milliseconds from the Unix epoch to `t`, when `t` is not before
/// the epoch and they fit in a `u64`.
pub open spec fn unix_ms_spec(t: SystemTime) -> Option<u64> {
    match spec_since_unix_epoch(t) {
        None => None,
        Some(d) => {
            let ms = duration_ms(spec_duration_secs(d), spec_duration_subsec_nanos(d));
            if ms <= u64::MAX { Some(ms as u64) } else { None }
        },
    }
}

/// Whole milliseconds since the Unix epoch, when they fit in a `u64`.
fn unix_ms(t: &SystemTime) -> (r: Result<u64, AdmissionError>)
    ensures
        match unix_ms_spec(*t) {
            Some(ms) => r == Ok::<u64, AdmissionError>(ms),
            None => r == Err::<u64, AdmissionError>(AdmissionError::ClockOutOfRange),
        },
{
    match since_unix_epoch(t) {
        None => Err(AdmissionError::ClockOutOfRange),
        Some(d) => {
            let secs = duration_secs(&d);
            let nanos = duration_subsec_nanos(&d);
            let ms: u128 = (secs as u128) * 1000 + (nanos / 1_000_000) as u128;
            if ms > u64::MAX as u128 {
                Err(AdmissionError::ClockOutOfRange)
            } else {
                Ok(ms as u64)
            }
        },
    }
}

impl ChallengeStore {
    /// Issues `challenge` at the clock time `now`; see `issue_at`. A clock
    /// that reads before 1970, or too far after it, fails and changes
    /// nothing.
    pub fn issue(&mut self, challenge: Challenge, now: SystemTime) -> (r: Result<u64, AdmissionError>)
        requires
            old(self).wf(),
        ensures
            final(self).wf(),
            final(self).capacity() == old(self).capacity(),
            final(self).lifetime_ms() == old(self).lifetime_ms(),
            unix_ms_spec(now) is None ==> r == Err::<u64, AdmissionError>(AdmissionError::ClockOutOfRange)
                && final(self).entries() == old(self).entries(),
            unix_ms_spec(now) matches Some(ms) ==> (final(self).entries(), r)
                == issue_spec(old(self).entries(), old(self).capacity(), old(self).lifetime_ms(), challenge, ms),
    {
        match unix_ms(&now) {
            Err(e) => Err(e),
            Ok(ms) => self.issue_at(challenge, ms),
        }
    }

    /// Consumes `challenge` at the clock time `now`; see `consume_at`. A
    /// clock that reads out of range accepts nothing and changes nothing.
    pub fn consume(&mut self, challenge: &Challenge, now: SystemTime) -> (ok: bool)
        requires
            old(self).wf(),
        ensures
            final(self).wf(),
            final(self).capacity() == old(self).capacity(),
            final(self).lifetime_ms() == old(self).lifetime_ms(),
            unix_ms_spec(now) is None ==> !ok && final(self).entries() == old(self).entries(),
            unix_ms_spec(now) matches Some(ms) ==> (final(self).entries(), ok) == consume_spec(old(self).entries(), *challenge, ms),
    {
        match unix_ms(&now) {
            Err(_) => false,
            Ok(ms) => self.consume_at(challenge, ms),
        }
    }
}

/// A store never holds more challenges than its capacity.
pub proof fn lemma_store_is_bounded(s: &ChallengeStore)
    requires
        s.wf(),
    ensures
        s.entries().len() <= s.capacity(),
        unique_challenges(s.entries()),
{
}

/// A challenge is accepted at most once: consuming it again at the same
/// time is refused.
pub proof fn lemma_challenge_is_one_use(s: Seq<ChallengeEntry>, c: Challenge, now: u64)
    ensures
        !consume_spec(consume_spec(s, c, now).0, c, now).1,
{
    let once = consume_spec(s, c, now).0;
    lemma_without_sub(live(s, now), c);
    lemma_live_sub(once, now);
    if holds(live(once, now), c) {
        let i = choose|i: int| 0 <= i < live(once, now).len() && #[trigger] live(once, now)[i].0 == c;
        let e = live(once, now)[i];
        assert(live(once, now).contains(e));
        assert(once.contains(e));
        let j = choose|j: int| 0 <= j < once.len() && once[j] == e;
        assert(once[j].0 == c);
    }
}

/// A challenge is accepted only while an entry for it has not expired.
pub proof fn lemma_accepted_challenge_was_live(s: Seq<ChallengeEntry>, c: Challenge, now: u64)
    requires
        consume_spec(s, c, now).1,
    ensures
        exists|i: int| 0 <= i < s.len() && #[trigger] s[i].0 == c && s[i].1 > now,
{
    lemma_live_sub(s, now);
    let p = live(s, now);
    let i = choose|i: int| 0 <= i < p.len() && #[trigger] p[i].0 == c;
    assert(p.contains(p[i]));
    assert(s.contains(p[i]));
    let j = choose|j: int| 0 <= j < s.len() && s[j] == p[i];
    assert(s[j].0 == c);
}

/// Once its expiry has passed, a held challenge is no longer accepted.
pub proof fn lemma_expired_challenge_is_refused(s: Seq<ChallengeEntry>, i: int, now: u64)
    requires
        unique_challenges(s),
        0 <= i < s.len(),
        s[i].1 <= now,
    ensures
        !consume_spec(s, s[i].0, now).1,
{
    let c = s[i].0;
    if consume_spec(s, c, now).1 {
        lemma_accepted_challenge_was_live(s, c, now);
        let j = choose|j: int| 0 <= j < s.len() && #[trigger] s[j].0 == c && s[j].1 > now;
        assert(i != j);
    }
}

/// A freshly issued challenge is accepted at any time before its expiry.
pub proof fn lemma_issued_challenge_is_accepted(
    s: Seq<ChallengeEntry>,
    capacity: nat,
    lifetime_ms: int,
    c: Challenge,
    now: u64,
    later: u64,
)
    requires
        issue_spec(s, capacity, lifetime_ms, c, now).1 is Ok,
        later < issue_spec(s, capacity, lifetime_ms, c, now).1->Ok_0,
    ensures
        consume_spec(issue_spec(s, capacity, lifetime_ms, c, now).0, c, later).1,
{
    let (next, r) = issue_spec(s, capacity, lifetime_ms, c, now);
    let e = (c, r->Ok_0);
    assert(next.last() == e);
    assert(next.contains(e)) by {
        assert(next[next.len() - 1] == e);
    }
    lemma_live_sub(next, later);
    assert(live(next, later).contains(e));
    let k = choose|k: int| 0 <= k < live(next, later).len() && live(next, later)[k] == e;
    assert(live(next, later)[k].0 == c);
}

} // verus!
