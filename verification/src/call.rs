//! Signed, space-scoped call setup and teardown signals: the sender, call,
//! space, media, membership revision and lifetime bound under one
//! signature, the variant included.

use vstd::prelude::*;
use vstd::string::StringSliceAdditionalSpecFns;
use crate::keys::{
    bytes32_eq, ed25519_verify, sha256, spec_ed25519_public, spec_ed25519_sign, spec_ed25519_verify,
    spec_sha256, EndpointId, SecretKey, Signature,
};
use crate::membership::{member_at_epoch_in, MembershipState};
use crate::protocol::id::{push_space, space_bytes};
use crate::protocol::{CallId, SpaceId};
use crate::wire::{push_raw, push_text, push_varint, varint, zigzag, zigzag_u64};

verus! {

/// The longest a call signal may live, in seconds.
pub const MAX_CALL_SIGNAL_SECS: u64 = 60;
pub const MAX_CALL_SIGNAL_MS: i64 = 60000;

pub type CallSignalHash = [u8; 32];

/// What media a participant can send and receive.
#[derive(Clone, Copy, Debug, Default, PartialEq, Eq, Structural)]
pub struct MediaCapabilities {
    pub send_voice: bool,
    pub recv_voice: bool,
    pub send_video: bool,
    pub recv_video: bool,
}

/// The fields every call signal carries.
#[derive(Clone, Copy, Debug, PartialEq, Eq)]
pub struct CallSignalBodyV1 {
    pub sender: EndpointId,
    pub call_id: CallId,
    pub space: SpaceId,
    pub media: MediaCapabilities,
    pub membership_revision: u64,
    pub issued_unix_ms: i64,
    pub expiry_unix_ms: i64,
}

/// Call setup and teardown intent.
#[derive(Clone, Copy, Debug, PartialEq, Eq)]
pub enum CallSignalV1 {
    Create(CallSignalBodyV1),
    Join(CallSignalBodyV1),
    Leave(CallSignalBodyV1),
    End(CallSignalBodyV1),
}

#[derive(Clone, Copy, Debug)]
pub struct SignedCallSignalV1 {
    pub signal: CallSignalV1,
    pub signature: Signature,
}

#[derive(Clone, Copy, Debug, PartialEq, Eq, Structural)]
pub enum CallError {
    ExpiryNotAfterIssue,
    DurationOverflow,
    TooLong,
    NegativeSkew,
    IssuedInFuture,
    Expired,
    SenderMismatch,
    InvalidSignature,
    NotMember,
}

pub open spec fn body_of(s: CallSignalV1) -> CallSignalBodyV1 {
    match s {
        CallSignalV1::Create(b) => b,
        CallSignalV1::Join(b) => b,
        CallSignalV1::Leave(b) => b,
        CallSignalV1::End(b) => b,
    }
}

/// The same variant with another body.
pub open spec fn with_body(s: CallSignalV1, b: CallSignalBodyV1) -> CallSignalV1 {
    match s {
        CallSignalV1::Create(_) => CallSignalV1::Create(b),
        CallSignalV1::Join(_) => CallSignalV1::Join(b),
        CallSignalV1::Leave(_) => CallSignalV1::Leave(b),
        CallSignalV1::End(_) => CallSignalV1::End(b),
    }
}

pub open spec fn variant_index(s: CallSignalV1) -> nat {
    match s {
        CallSignalV1::Create(_) => 0,
        CallSignalV1::Join(_) => 1,
        CallSignalV1::Leave(_) => 2,
        CallSignalV1::End(_) => 3,
    }
}

pub open spec fn bool_byte(b: bool) -> u8 {
    if b { 1 } else { 0 }
}

pub open spec fn media_bytes(m: MediaCapabilities) -> Seq<u8> {
    seq![bool_byte(m.send_voice), bool_byte(m.recv_voice), bool_byte(m.send_video), bool_byte(m.recv_video)]
}

pub open spec fn body_bytes(b: CallSignalBodyV1) -> Seq<u8> {
    b.sender.0@ + b.call_id.0@ + space_bytes(b.space) + media_bytes(b.media) + varint(b.membership_revision as nat)
        + varint(zigzag(b.issued_unix_ms as int)) + varint(zigzag(b.expiry_unix_ms as int))
}

pub open spec fn signal_bytes(s: CallSignalV1) -> Seq<u8> {
    varint(variant_index(s)) + body_bytes(body_of(s))
}

pub open spec fn signal_signing_bytes(s: CallSignalV1) -> Seq<u8> {
    "starling/v1/call-signal\0".spec_bytes() + signal_bytes(s)
}

pub open spec fn signal_hash(s: CallSignalV1) -> Seq<u8> {
    spec_sha256("starling/v1/call-signal-hash\0".spec_bytes() + signal_bytes(s))
}

pub open spec fn body_result(b: CallSignalBodyV1) -> Result<(), CallError> {
    if !(b.expiry_unix_ms > b.issued_unix_ms) {
        Err(CallError::ExpiryNotAfterIssue)
    } else if b.expiry_unix_ms - b.issued_unix_ms > i64::MAX {
        Err(CallError::DurationOverflow)
    } else if b.expiry_unix_ms - b.issued_unix_ms > MAX_CALL_SIGNAL_MS {
        Err(CallError::TooLong)
    } else {
        Ok(())
    }
}

pub open spec fn saturate(x: int) -> int {
    if x > i64::MAX { i64::MAX as int } else if x < i64::MIN { i64::MIN as int } else { x }
}

pub open spec fn time_result(b: CallSignalBodyV1, now_ms: i64, max_skew_ms: i64) -> Result<(), CallError> {
    if max_skew_ms < 0 {
        Err(CallError::NegativeSkew)
    } else if !(b.issued_unix_ms <= saturate(now_ms + max_skew_ms)) {
        Err(CallError::IssuedInFuture)
    } else if !(saturate(b.expiry_unix_ms - now_ms) > 0) {
        Err(CallError::Expired)
    } else {
        Ok(())
    }
}

/// What verifying a signed signal gives: its shape, its time bounds at
/// `now_ms`, its signature and its sender's membership checked, then its
/// hash.
pub open spec fn verify_result(s: SignedCallSignalV1, members: MembershipState, now_ms: i64, max_skew_ms: i64) -> Result<Seq<u8>, CallError> {
    let b = body_of(s.signal);
    if body_result(b) is Err {
        Err(body_result(b)->Err_0)
    } else if time_result(b, now_ms, max_skew_ms) is Err {
        Err(time_result(b, now_ms, max_skew_ms)->Err_0)
    } else if !spec_ed25519_verify(b.sender.0@, signal_signing_bytes(s.signal), s.signature.0@) {
        Err(CallError::InvalidSignature)
    } else if !(b.membership_revision <= members.spec_revision()
        && member_at_epoch_in(members.snapshot_at(b.membership_revision as int).members_view(), b.sender, members.spec_key_epoch())) {
        Err(CallError::NotMember)
    } else {
        Ok(signal_hash(s.signal))
    }
}

/// An expired signal is refused whatever the skew allowance: time bounds
/// hold only strictly before the expiry, with a non-negative skew and an
/// issue time no later than `now_ms` plus the skew; so a signal verifies
/// only before its expiry.
pub proof fn lemma_expired_signals_refused(s: SignedCallSignalV1, members: MembershipState, now_ms: i64, max_skew_ms: i64)
    ensures
        forall|b: CallSignalBodyV1| #[trigger] time_result(b, now_ms, max_skew_ms) is Ok
            ==> now_ms < b.expiry_unix_ms && max_skew_ms >= 0 && b.issued_unix_ms <= now_ms + max_skew_ms,
        forall|b: CallSignalBodyV1| b.expiry_unix_ms <= now_ms
            ==> #[trigger] time_result(b, now_ms, max_skew_ms) == Err::<(), CallError>(CallError::Expired)
                || time_result(b, now_ms, max_skew_ms) == Err::<(), CallError>(CallError::NegativeSkew)
                || time_result(b, now_ms, max_skew_ms) == Err::<(), CallError>(CallError::IssuedInFuture),
        verify_result(s, members, now_ms, max_skew_ms) is Ok ==> now_ms < body_of(s.signal).expiry_unix_ms,
{
}

/// `a + b`, clamped to the range of `i64`.
pub fn saturating_add_i64(a: i64, b: i64) -> (r: i64)
    ensures
        r == saturate(a + b),
{
    if b > 0 && a > i64::MAX - b {
        i64::MAX
    } else if b < 0 && a < i64::MIN - b {
        i64::MIN
    } else {
        a + b
    }
}

/// `a - b`, clamped to the range of `i64`.
pub fn saturating_sub_i64(a: i64, b: i64) -> (r: i64)
    ensures
        r == saturate(a - b),
{
    if b < 0 && a > i64::MAX + b {
        i64::MAX
    } else if b > 0 && a < i64::MIN + b {
        i64::MIN
    } else {
        a - b
    }
}

fn push_bool(out: &mut Vec<u8>, b: bool)
    ensures
        final(out)@ == old(out)@.push(bool_byte(b)),
{
    if b {
        out.push(1u8);
    } else {
        out.push(0u8);
    }
}

impl CallSignalBodyV1 {
    fn validate(&self) -> (r: Result<(), CallError>)
        ensures
            r == body_result(*self),
    {
        if !(self.expiry_unix_ms > self.issued_unix_ms) {
            return Err(CallError::ExpiryNotAfterIssue);
        }
        let duration = self.expiry_unix_ms.checked_sub(self.issued_unix_ms);
        match duration {
            None => Err(CallError::DurationOverflow),
            Some(d) => {
                if d > MAX_CALL_SIGNAL_MS {
                    Err(CallError::TooLong)
                } else {
                    Ok(())
                }
            },
        }
    }

    fn verify_time_bounds(&self, now_ms: i64, max_skew_ms: i64) -> (r: Result<(), CallError>)
        ensures
            r == time_result(*self, now_ms, max_skew_ms),
    {
        if max_skew_ms < 0 {
            return Err(CallError::NegativeSkew);
        }
        if !(self.issued_unix_ms <= saturating_add_i64(now_ms, max_skew_ms)) {
            return Err(CallError::IssuedInFuture);
        }
        let remaining = saturating_sub_i64(self.expiry_unix_ms, now_ms);
        if !(remaining > 0) {
            return Err(CallError::Expired);
        }
        Ok(())
    }

    fn push_bytes(&self, out: &mut Vec<u8>)
        ensures
            final(out)@ == old(out)@ + body_bytes(*self),
    {
        push_raw(out, &self.sender.0);
        push_raw(out, &self.call_id.0);
        push_space(out, &self.space);
        push_bool(out, self.media.send_voice);
        push_bool(out, self.media.recv_voice);
        push_bool(out, self.media.send_video);
        push_bool(out, self.media.recv_video);
        push_varint(out, self.membership_revision);
        push_varint(out, zigzag_u64(self.issued_unix_ms));
        push_varint(out, zigzag_u64(self.expiry_unix_ms));
        assert(final(out)@ =~= old(out)@ + body_bytes(*self));
    }
}

impl CallSignalV1 {
    pub fn body(&self) -> (b: &CallSignalBodyV1)
        ensures
            *b == body_of(*self),
    {
        match self {
            CallSignalV1::Create(body) => body,
            CallSignalV1::Join(body) => body,
            CallSignalV1::Leave(body) => body,
            CallSignalV1::End(body) => body,
        }
    }

    pub fn body_mut(&mut self) -> (b: &mut CallSignalBodyV1)
        ensures
            *b == body_of(*old(self)),
            *final(self) == with_body(*old(self), *final(b)),
    {
        match self {
            CallSignalV1::Create(body) => body,
            CallSignalV1::Join(body) => body,
            CallSignalV1::Leave(body) => body,
            CallSignalV1::End(body) => body,
        }
    }

    fn push_bytes(&self, out: &mut Vec<u8>)
        ensures
            final(out)@ == old(out)@ + signal_bytes(*self),
    {
        let tag: u64 = match self {
            CallSignalV1::Create(_) => 0,
            CallSignalV1::Join(_) => 1,
            CallSignalV1::Leave(_) => 2,
            CallSignalV1::End(_) => 3,
        };
        push_varint(out, tag);
        self.body().push_bytes(out);
        assert(final(out)@ =~= old(out)@ + signal_bytes(*self));
    }

    /// The canonical bytes, once the body's lifetime is checked.
    pub fn canonical_bytes(&self) -> (r: Result<Vec<u8>, CallError>)
        ensures
            match r {
                Ok(b) => body_result(body_of(*self)) is Ok && b@ == signal_bytes(*self),
                Err(e) => body_result(body_of(*self)) == Err::<(), CallError>(e),
            },
    {
        if let Err(e) = self.body().validate() {
            return Err(e);
        }
        let mut out: Vec<u8> = Vec::new();
        self.push_bytes(&mut out);
        Ok(out)
    }

    fn signing_bytes(&self) -> (r: Result<Vec<u8>, CallError>)
        ensures
            match r {
                Ok(b) => body_result(body_of(*self)) is Ok && b@ == signal_signing_bytes(*self),
                Err(e) => body_result(body_of(*self)) == Err::<(), CallError>(e),
            },
    {
        if let Err(e) = self.body().validate() {
            return Err(e);
        }
        let mut out: Vec<u8> = Vec::new();
        push_text(&mut out, "starling/v1/call-signal\0");
        self.push_bytes(&mut out);
        Ok(out)
    }

    /// The signal's hash: SHA-256 over a domain tag and the canonical bytes.
    pub fn hash(&self) -> (r: Result<CallSignalHash, CallError>)
        ensures
            match r {
                Ok(h) => body_result(body_of(*self)) is Ok && h@ == signal_hash(*self),
                Err(e) => body_result(body_of(*self)) == Err::<(), CallError>(e),
            },
    {
        if let Err(e) = self.body().validate() {
            return Err(e);
        }
        let mut out: Vec<u8> = Vec::new();
        push_text(&mut out, "starling/v1/call-signal-hash\0");
        self.push_bytes(&mut out);
        Ok(sha256(out.as_slice()))
    }

    /// Signs the signal with the sender's key.
    pub fn sign(self, secret_key: &SecretKey) -> (r: Result<SignedCallSignalV1, CallError>)
        ensures
            body_of(self).sender.0@ != spec_ed25519_public(secret_key.bytes()) ==> r == Err::<SignedCallSignalV1, CallError>(CallError::SenderMismatch),
            body_of(self).sender.0@ == spec_ed25519_public(secret_key.bytes()) && body_result(body_of(self)) is Err
                ==> r == Err::<SignedCallSignalV1, CallError>(body_result(body_of(self))->Err_0),
            body_of(self).sender.0@ == spec_ed25519_public(secret_key.bytes()) && body_result(body_of(self)) is Ok ==> r is Ok,
            r matches Ok(s) ==> s.signal == self && s.signature.0@ == spec_ed25519_sign(secret_key.bytes(), signal_signing_bytes(self))
                && spec_ed25519_verify(body_of(self).sender.0@, signal_signing_bytes(self), s.signature.0@),
    {
        let public = secret_key.public();
        if !bytes32_eq(&self.body().sender.0, &public.0) {
            return Err(CallError::SenderMismatch);
        }
        let bytes = match self.signing_bytes() {
            Err(e) => return Err(e),
            Ok(b) => b,
        };
        let signature = secret_key.sign(bytes.as_slice());
        Ok(SignedCallSignalV1 { signal: self, signature })
    }
}

impl SignedCallSignalV1 {
    /// Verifies the shape, the time bounds, the signature and that the
    /// sender was a member at the signal's revision, and returns the
    /// signal's hash.
    pub fn verify(&self, members: &MembershipState, now_ms: i64, max_skew_ms: i64) -> (r: Result<CallSignalHash, CallError>)
        requires
            members.wf(),
        ensures
            match r {
                Ok(h) => verify_result(*self, *members, now_ms, max_skew_ms) == Ok::<Seq<u8>, CallError>(h@),
                Err(e) => verify_result(*self, *members, now_ms, max_skew_ms) == Err::<Seq<u8>, CallError>(e),
            },
    {
        let body = self.signal.body();
        if let Err(e) = body.validate() {
            return Err(e);
        }
        if let Err(e) = body.verify_time_bounds(now_ms, max_skew_ms) {
            return Err(e);
        }
        let bytes = match self.signal.signing_bytes() {
            Err(e) => return Err(e),
            Ok(b) => b,
        };
        if !ed25519_verify(&body.sender, bytes.as_slice(), &self.signature) {
            return Err(CallError::InvalidSignature);
        }
        if !members.authorized_at(&body.sender, body.membership_revision, members.key_epoch()) {
            return Err(CallError::NotMember);
        }
        self.signal.hash()
    }
}

} // verus!
