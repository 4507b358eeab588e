//! Channel-key provisioning: a recipient's signed request for a channel's
//! epoch key and a provider's signed package answering it, bound field by
//! field, with a key confirmation.

use vstd::prelude::*;
use vstd::string::StringSliceAdditionalSpecFns;
use crate::admission::{be64, constant_time_eq, push_be64};
use crate::keys::{
    bytes32_eq, ed25519_verify, sha256, spec_ed25519_public, spec_ed25519_sign, spec_ed25519_verify,
    spec_sha256, EndpointId, SecretKey, Signature,
};
use crate::protocol::id::bytes16_eq;
use crate::protocol::{ChannelId, RoostId};
use crate::wire::{all_zero, bytes_field, is_all_zero, push_bytes_field, push_raw, push_text, push_varint, varint};

verus! {

pub const FRAME_PROVISIONING_REQUEST: u16 = 0x2201;
pub const FRAME_PROVISIONING_PACKAGE: u16 = 0x2202;
pub const PROTOCOL_MAJOR: u16 = 1;
pub const MAX_CONNECTION_BINDING_BYTES: usize = 256;
pub const MAX_WRAPPED_KEY_BYTES: usize = 16384;
pub const MAX_ENCRYPTED_PACKAGE_BYTES: usize = 8388608;
pub const CHANNEL_EPOCH_KEY_BYTES: usize = 32;

pub type Challenge = [u8; 32];
pub type KeyConfirmation = [u8; 32];

#[derive(Clone, Debug, PartialEq, Eq)]
pub struct ProvisioningRequest {
    pub major: u16,
    pub roost_id: RoostId,
    pub channel_id: ChannelId,
    pub epoch: u64,
    pub revision: u64,
    pub recipient: EndpointId,
    pub provider: EndpointId,
    pub auth_generation: u64,
    pub challenge: Challenge,
    pub connection_binding: Vec<u8>,
}

#[derive(Clone, Debug)]
pub struct SignedProvisioningRequest {
    pub request: ProvisioningRequest,
    pub signature: Signature,
}

#[derive(Clone, Debug, PartialEq, Eq)]
pub struct ProvisioningPackageMetadata {
    pub major: u16,
    pub roost_id: RoostId,
    pub channel_id: ChannelId,
    pub epoch: u64,
    pub revision: u64,
    pub recipient: EndpointId,
    pub provider: EndpointId,
    pub auth_generation: u64,
    pub challenge: Challenge,
    pub key_confirmation: KeyConfirmation,
    pub wrapped_key: Vec<u8>,
    pub encrypted_bytes: Vec<u8>,
}

#[derive(Clone, Debug)]
pub struct SignedProvisioningPackage {
    pub package: ProvisioningPackageMetadata,
    pub signature: Signature,
}

/// Wraps a channel key with key material the caller supplies.
pub trait KeyWrapper {
    fn wrap_key(&self, context: &ProvisioningRequest, key: &ChannelEpochKey) -> Result<Vec<u8>, String>;
}

pub trait KeyUnwrapper {
    fn unwrap_key(&self, context: &ProvisioningPackageMetadata, wrapped: &[u8]) -> Result<ChannelEpochKey, String>;
}

#[derive(Clone, Copy, Debug, PartialEq, Eq, Structural)]
pub enum ProvisioningError {
    UnsupportedMajor,
    RoostIdZero,
    ChannelIdZero,
    BindingEmpty,
    BindingTooLarge,
    SameParty,
    /// The roost or channel of a package is zero.
    InvalidScope,
    InvalidWrappedKeyLength,
    InvalidPackageLength,
    RecipientMismatch,
    ProviderMismatch,
    InvalidSignature,
    /// The package answers another request.
    RequestMismatch,
}

/// A channel's key for one epoch.
pub struct ChannelEpochKey([u8; 32]);

pub open spec fn request_shape_result(r: ProvisioningRequest) -> Result<(), ProvisioningError> {
    if r.major != PROTOCOL_MAJOR {
        Err(ProvisioningError::UnsupportedMajor)
    } else if all_zero(r.roost_id.0@) {
        Err(ProvisioningError::RoostIdZero)
    } else if all_zero(r.channel_id.0@) {
        Err(ProvisioningError::ChannelIdZero)
    } else if r.connection_binding@.len() == 0 {
        Err(ProvisioningError::BindingEmpty)
    } else if r.connection_binding@.len() > MAX_CONNECTION_BINDING_BYTES {
        Err(ProvisioningError::BindingTooLarge)
    } else if r.recipient == r.provider {
        Err(ProvisioningError::SameParty)
    } else {
        Ok(())
    }
}

pub open spec fn request_bytes(r: ProvisioningRequest) -> Seq<u8> {
    varint(r.major as nat) + r.roost_id.0@ + r.channel_id.0@ + varint(r.epoch as nat) + varint(r.revision as nat)
        + r.recipient.0@ + r.provider.0@ + varint(r.auth_generation as nat) + r.challenge@
        + bytes_field(r.connection_binding@)
}

pub open spec fn request_signing_bytes(r: ProvisioningRequest) -> Seq<u8> {
    "starling/provisioning-request/v1\0".spec_bytes() + request_bytes(r)
}

pub open spec fn request_verify_result(s: SignedProvisioningRequest) -> Result<(), ProvisioningError> {
    if request_shape_result(s.request) is Err {
        request_shape_result(s.request)
    } else if !spec_ed25519_verify(s.request.recipient.0@, request_signing_bytes(s.request), s.signature.0@) {
        Err(ProvisioningError::InvalidSignature)
    } else {
        Ok(())
    }
}

pub open spec fn package_shape_result(p: ProvisioningPackageMetadata) -> Result<(), ProvisioningError> {
    if p.major != PROTOCOL_MAJOR {
        Err(ProvisioningError::UnsupportedMajor)
    } else if all_zero(p.roost_id.0@) || all_zero(p.channel_id.0@) {
        Err(ProvisioningError::InvalidScope)
    } else if p.recipient == p.provider {
        Err(ProvisioningError::SameParty)
    } else if !(p.wrapped_key@.len() > 0 && p.wrapped_key@.len() <= MAX_WRAPPED_KEY_BYTES) {
        Err(ProvisioningError::InvalidWrappedKeyLength)
    } else if !(p.encrypted_bytes@.len() > 0 && p.encrypted_bytes@.len() <= MAX_ENCRYPTED_PACKAGE_BYTES) {
        Err(ProvisioningError::InvalidPackageLength)
    } else {
        Ok(())
    }
}

pub open spec fn package_bytes(p: ProvisioningPackageMetadata) -> Seq<u8> {
    varint(p.major as nat) + p.roost_id.0@ + p.channel_id.0@ + varint(p.epoch as nat) + varint(p.revision as nat)
        + p.recipient.0@ + p.provider.0@ + varint(p.auth_generation as nat) + p.challenge@ + p.key_confirmation@
        + bytes_field(p.wrapped_key@) + bytes_field(p.encrypted_bytes@)
}

pub open spec fn package_signing_bytes(p: ProvisioningPackageMetadata) -> Seq<u8> {
    "starling/provisioning-package/v1\0".spec_bytes() + package_bytes(p)
}

pub open spec fn package_verify_result(s: SignedProvisioningPackage) -> Result<(), ProvisioningError> {
    if package_shape_result(s.package) is Err {
        package_shape_result(s.package)
    } else if !spec_ed25519_verify(s.package.provider.0@, package_signing_bytes(s.package), s.signature.0@) {
        Err(ProvisioningError::InvalidSignature)
    } else {
        Ok(())
    }
}

/// A package answers a request when every bound field agrees.
pub open spec fn package_answers(p: ProvisioningPackageMetadata, r: ProvisioningRequest) -> bool {
    &&& p.major == r.major
    &&& p.roost_id == r.roost_id
    &&& p.channel_id == r.channel_id
    &&& p.epoch == r.epoch
    &&& p.revision == r.revision
    &&& p.recipient == r.recipient
    &&& p.provider == r.provider
    &&& p.auth_generation == r.auth_generation
    &&& p.challenge == r.challenge
}

pub open spec fn match_result(p: ProvisioningPackageMetadata, r: ProvisioningRequest) -> Result<(), ProvisioningError> {
    if package_shape_result(p) is Err {
        package_shape_result(p)
    } else if request_shape_result(r) is Err {
        request_shape_result(r)
    } else if !package_answers(p, r) {
        Err(ProvisioningError::RequestMismatch)
    } else {
        Ok(())
    }
}

/// A package answers only its own request: matching succeeds only when the
/// package names the request's major version, roost, channel, epoch,
/// revision, recipient, provider, auth generation and challenge, and two
/// well-formed ones that agree on all of them match.
pub proof fn lemma_match_binds_every_field(p: ProvisioningPackageMetadata, r: ProvisioningRequest)
    ensures
        match_result(p, r) is Ok ==> {
            &&& p.major == r.major
            &&& p.roost_id == r.roost_id
            &&& p.channel_id == r.channel_id
            &&& p.epoch == r.epoch
            &&& p.revision == r.revision
            &&& p.recipient == r.recipient
            &&& p.provider == r.provider
            &&& p.auth_generation == r.auth_generation
            &&& p.challenge == r.challenge
        },
        package_shape_result(p) is Ok && request_shape_result(r) is Ok && p.major == r.major && p.roost_id == r.roost_id
            && p.channel_id == r.channel_id && p.epoch == r.epoch && p.revision == r.revision && p.recipient == r.recipient
            && p.provider == r.provider && p.auth_generation == r.auth_generation && p.challenge == r.challenge
            ==> match_result(p, r) is Ok,
        p.channel_id != r.channel_id && package_shape_result(p) is Ok && request_shape_result(r) is Ok
            ==> match_result(p, r) == Err::<(), ProvisioningError>(ProvisioningError::RequestMismatch),
{
}

/// The confirmation of a key for a request: SHA-256 over a domain tag, the
/// key, the big-endian length of the request's canonical bytes, and those
/// bytes.
pub open spec fn confirmation_spec(key: Seq<u8>, r: ProvisioningRequest) -> Seq<u8> {
    spec_sha256("starling/channel-key-confirmation/v1\0".spec_bytes() + key + be64(request_bytes(r).len() as u64) + request_bytes(r))
}

fn push_request(out: &mut Vec<u8>, r: &ProvisioningRequest)
    ensures
        final(out)@ == old(out)@ + request_bytes(*r),
{
    push_varint(out, r.major as u64);
    push_raw(out, &r.roost_id.0);
    push_raw(out, &r.channel_id.0);
    push_varint(out, r.epoch);
    push_varint(out, r.revision);
    push_raw(out, &r.recipient.0);
    push_raw(out, &r.provider.0);
    push_varint(out, r.auth_generation);
    push_raw(out, &r.challenge);
    push_bytes_field(out, r.connection_binding.as_slice());
    assert(final(out)@ =~= old(out)@ + request_bytes(*r));
}

fn endpoint_eq(a: &EndpointId, b: &EndpointId) -> (eq: bool)
    ensures
        eq == (*a == *b),
{
    let eq = bytes32_eq(&a.0, &b.0);
    proof {
        if eq {
            assert(a.0 =~= b.0);
        } else if *a == *b {
            assert(a.0@ == b.0@);
        }
    }
    eq
}

impl ChannelEpochKey {
    pub closed spec fn bytes(&self) -> Seq<u8> {
        self.0@
    }

    pub fn new(bytes: [u8; 32]) -> (k: ChannelEpochKey)
        ensures
            k.bytes() == bytes@,
    {
        ChannelEpochKey(bytes)
    }

    pub fn expose(&self) -> (b: &[u8; 32])
        ensures
            b@ == self.bytes(),
    {
        &self.0
    }

    /// Confirms this key for a request.
    pub fn confirmation(&self, request: &ProvisioningRequest) -> (r: Result<KeyConfirmation, ProvisioningError>)
        ensures
            match r {
                Ok(c) => request_shape_result(*request) is Ok && c@ == confirmation_spec(self.bytes(), *request),
                Err(e) => request_shape_result(*request) == Err::<(), ProvisioningError>(e),
            },
    {
        if let Err(e) = request.validate_shape() {
            return Err(e);
        }
        let mut context: Vec<u8> = Vec::new();
        push_request(&mut context, request);
        let mut buf: Vec<u8> = Vec::new();
        push_text(&mut buf, "starling/channel-key-confirmation/v1\0");
        push_raw(&mut buf, &self.0);
        push_be64(&mut buf, context.len() as u64);
        push_raw(&mut buf, context.as_slice());
        Ok(sha256(buf.as_slice()))
    }

    /// Whether `expected` confirms this key for the request.
    pub fn verify_confirmation(&self, request: &ProvisioningRequest, expected: &KeyConfirmation) -> (r: Result<bool, ProvisioningError>)
        ensures
            match r {
                Ok(b) => request_shape_result(*request) is Ok && b == (expected@ == confirmation_spec(self.bytes(), *request)),
                Err(e) => request_shape_result(*request) == Err::<(), ProvisioningError>(e),
            },
    {
        match self.confirmation(request) {
            Err(e) => Err(e),
            Ok(c) => Ok(constant_time_eq(&c, expected)),
        }
    }
}

impl ProvisioningRequest {
    pub fn validate_shape(&self) -> (r: Result<(), ProvisioningError>)
        ensures
            r == request_shape_result(*self),
    {
        if self.major != PROTOCOL_MAJOR {
            return Err(ProvisioningError::UnsupportedMajor);
        }
        if is_all_zero(&self.roost_id.0) {
            return Err(ProvisioningError::RoostIdZero);
        }
        if is_all_zero(&self.channel_id.0) {
            return Err(ProvisioningError::ChannelIdZero);
        }
        if self.connection_binding.len() == 0 {
            return Err(ProvisioningError::BindingEmpty);
        }
        if self.connection_binding.len() > MAX_CONNECTION_BINDING_BYTES {
            return Err(ProvisioningError::BindingTooLarge);
        }
        if endpoint_eq(&self.recipient, &self.provider) {
            return Err(ProvisioningError::SameParty);
        }
        Ok(())
    }

    pub fn signing_bytes(&self) -> (r: Result<Vec<u8>, ProvisioningError>)
        ensures
            match r {
                Ok(b) => request_shape_result(*self) is Ok && b@ == request_signing_bytes(*self),
                Err(e) => request_shape_result(*self) == Err::<(), ProvisioningError>(e),
            },
    {
        if let Err(e) = self.validate_shape() {
            return Err(e);
        }
        let mut out: Vec<u8> = Vec::new();
        push_text(&mut out, "starling/provisioning-request/v1\0");
        push_request(&mut out, self);
        Ok(out)
    }

    /// Signs the request with the recipient's key.
    pub fn sign(self, key: &SecretKey) -> (r: Result<SignedProvisioningRequest, ProvisioningError>)
        ensures
            self.recipient.0@ != spec_ed25519_public(key.bytes()) ==> r == Err::<SignedProvisioningRequest, ProvisioningError>(ProvisioningError::RecipientMismatch),
            self.recipient.0@ == spec_ed25519_public(key.bytes()) && request_shape_result(self) is Err
                ==> r == Err::<SignedProvisioningRequest, ProvisioningError>(request_shape_result(self)->Err_0),
            self.recipient.0@ == spec_ed25519_public(key.bytes()) && request_shape_result(self) is Ok ==> r is Ok,
            r matches Ok(s) ==> (s.request == self && s.signature.0@ == spec_ed25519_sign(key.bytes(), request_signing_bytes(self))
                && request_verify_result(s) is Ok),
    {
        let public = key.public();
        if !bytes32_eq(&self.recipient.0, &public.0) {
            return Err(ProvisioningError::RecipientMismatch);
        }
        let bytes = match self.signing_bytes() {
            Err(e) => return Err(e),
            Ok(b) => b,
        };
        let signature = key.sign(bytes.as_slice());
        Ok(SignedProvisioningRequest { request: self, signature })
    }
}

impl SignedProvisioningRequest {
    pub fn verify(&self) -> (r: Result<(), ProvisioningError>)
        ensures
            r == request_verify_result(*self),
    {
        let bytes = match self.request.signing_bytes() {
            Err(e) => return Err(e),
            Ok(b) => b,
        };
        if !ed25519_verify(&self.request.recipient, bytes.as_slice(), &self.signature) {
            return Err(ProvisioningError::InvalidSignature);
        }
        Ok(())
    }
}

impl ProvisioningPackageMetadata {
    pub fn validate_shape(&self) -> (r: Result<(), ProvisioningError>)
        ensures
            r == package_shape_result(*self),
    {
        if self.major != PROTOCOL_MAJOR {
            return Err(ProvisioningError::UnsupportedMajor);
        }
        if is_all_zero(&self.roost_id.0) || is_all_zero(&self.channel_id.0) {
            return Err(ProvisioningError::InvalidScope);
        }
        if endpoint_eq(&self.recipient, &self.provider) {
            return Err(ProvisioningError::SameParty);
        }
        if !(self.wrapped_key.len() > 0 && self.wrapped_key.len() <= MAX_WRAPPED_KEY_BYTES) {
            return Err(ProvisioningError::InvalidWrappedKeyLength);
        }
        if !(self.encrypted_bytes.len() > 0 && self.encrypted_bytes.len() <= MAX_ENCRYPTED_PACKAGE_BYTES) {
            return Err(ProvisioningError::InvalidPackageLength);
        }
        Ok(())
    }

    pub fn signing_bytes(&self) -> (r: Result<Vec<u8>, ProvisioningError>)
        ensures
            match r {
                Ok(b) => package_shape_result(*self) is Ok && b@ == package_signing_bytes(*self),
                Err(e) => package_shape_result(*self) == Err::<(), ProvisioningError>(e),
            },
    {
        if let Err(e) = self.validate_shape() {
            return Err(e);
        }
        let mut out: Vec<u8> = Vec::new();
        push_text(&mut out, "starling/provisioning-package/v1\0");
        push_varint(&mut out, self.major as u64);
        push_raw(&mut out, &self.roost_id.0);
        push_raw(&mut out, &self.channel_id.0);
        push_varint(&mut out, self.epoch);
        push_varint(&mut out, self.revision);
        push_raw(&mut out, &self.recipient.0);
        push_raw(&mut out, &self.provider.0);
        push_varint(&mut out, self.auth_generation);
        push_raw(&mut out, &self.challenge);
        push_raw(&mut out, &self.key_confirmation);
        push_bytes_field(&mut out, self.wrapped_key.as_slice());
        push_bytes_field(&mut out, self.encrypted_bytes.as_slice());
        assert(out@ =~= package_signing_bytes(*self));
        Ok(out)
    }

    /// Signs the package with the provider's key.
    pub fn sign(self, key: &SecretKey) -> (r: Result<SignedProvisioningPackage, ProvisioningError>)
        ensures
            self.provider.0@ != spec_ed25519_public(key.bytes()) ==> r == Err::<SignedProvisioningPackage, ProvisioningError>(ProvisioningError::ProviderMismatch),
            self.provider.0@ == spec_ed25519_public(key.bytes()) && package_shape_result(self) is Err
                ==> r == Err::<SignedProvisioningPackage, ProvisioningError>(package_shape_result(self)->Err_0),
            self.provider.0@ == spec_ed25519_public(key.bytes()) && package_shape_result(self) is Ok ==> r is Ok,
            r matches Ok(s) ==> (s.package == self && s.signature.0@ == spec_ed25519_sign(key.bytes(), package_signing_bytes(self))
                && package_verify_result(s) is Ok),
    {
        let public = key.public();
        if !bytes32_eq(&self.provider.0, &public.0) {
            return Err(ProvisioningError::ProviderMismatch);
        }
        let bytes = match self.signing_bytes() {
            Err(e) => return Err(e),
            Ok(b) => b,
        };
        let signature = key.sign(bytes.as_slice());
        Ok(SignedProvisioningPackage { package: self, signature })
    }

    /// Checks that the package answers `request`.
    pub fn matches_request(&self, request: &ProvisioningRequest) -> (r: Result<(), ProvisioningError>)
        ensures
            r == match_result(*self, *request),
    {
        if let Err(e) = self.validate_shape() {
            return Err(e);
        }
        if let Err(e) = request.validate_shape() {
            return Err(e);
        }
        let same_roost = bytes32_eq(&self.roost_id.0, &request.roost_id.0);
        let same_channel = bytes16_eq(&self.channel_id.0, &request.channel_id.0);
        let same_challenge = bytes32_eq(&self.challenge, &request.challenge);
        proof {
            if same_roost {
                assert(self.roost_id.0 =~= request.roost_id.0);
            } else if self.roost_id == request.roost_id {
                assert(self.roost_id.0@ == request.roost_id.0@);
            }
            if same_channel {
                assert(self.channel_id.0 =~= request.channel_id.0);
            } else if self.channel_id == request.channel_id {
                assert(self.channel_id.0@ == request.channel_id.0@);
            }
            if same_challenge {
                assert(self.challenge =~= request.challenge);
            } else if self.challenge == request.challenge {
                assert(self.challenge@ == request.challenge@);
            }
        }
        if !(self.major == request.major && same_roost && same_channel && self.epoch == request.epoch
            && self.revision == request.revision && endpoint_eq(&self.recipient, &request.recipient)
            && endpoint_eq(&self.provider, &request.provider) && self.auth_generation == request.auth_generation
            && same_challenge) {
            return Err(ProvisioningError::RequestMismatch);
        }
        Ok(())
    }
}

impl SignedProvisioningPackage {
    pub fn verify(&self) -> (r: Result<(), ProvisioningError>)
        ensures
            r == package_verify_result(*self),
    {
        let bytes = match self.package.signing_bytes() {
            Err(e) => return Err(e),
            Ok(b) => b,
        };
        if !ed25519_verify(&self.package.provider, bytes.as_slice(), &self.signature) {
            return Err(ProvisioningError::InvalidSignature);
        }
        Ok(())
    }
}

} // verus!
