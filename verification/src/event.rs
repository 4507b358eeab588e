//! Chat messages and the signed envelope that carries every gossip payload.
//!
//! The signature covers the domain separator followed by the payload, so a
//! gossip signature cannot be replayed as a presence lease, a call signal or
//! any other Ed25519 artifact of the system.

use vstd::prelude::*;
use vstd::string::StringSliceAdditionalSpecFns;
use crate::keys::{spec_ed25519_public, spec_ed25519_sign, spec_ed25519_verify, ed25519_verify, EndpointId, SecretKey, Signature};
use crate::wire::{push_raw, push_text};

verus! {

#[derive(Debug)]
pub struct ChatMessage {
    pub id: String,
    pub author: String,
    pub body: String,
    pub ts: i64,
}

impl Clone for ChatMessage {
    fn clone(&self) -> (m: ChatMessage)
        ensures
            m == *self,
    {
        ChatMessage { id: self.id.clone(), author: self.author.clone(), body: self.body.clone(), ts: self.ts }
    }
}


/// A payload signed by the bird named as its author.
#[derive(Clone, Debug)]
pub struct Signed {
    pub author: EndpointId,
    pub payload: Vec<u8>,
    pub sig: Vec<u8>,
}

/// The domain separator bound into every [`Signed`] envelope.
pub const SIGNED_DOMAIN: &'static str = "starling/v1/gossip-signed";

#[derive(Clone, Copy, Debug, PartialEq, Eq, Structural)]
pub enum BirdStatus {
    Online,
    Idle,
    InCall,
}

/// Why an envelope was refused.
#[derive(Clone, Copy, Debug, PartialEq, Eq, Structural)]
pub enum SignedError {
    /// The signature is not 64 bytes long.
    MalformedSignature,
    /// The signature does not verify under the author's key.
    VerificationFailed,
}

impl SignedError {
    pub fn message(&self) -> (m: &'static str)
        ensures
            *self is MalformedSignature ==> m@ == "malformed gossip signature"@,
            *self is VerificationFailed ==> m@ == "gossip signature verification failed"@,
    {
        match self {
            SignedError::MalformedSignature => "malformed gossip signature",
            SignedError::VerificationFailed => "gossip signature verification failed",
        }
    }
}

/// The bytes a gossip signature covers: the domain, then the payload.
pub open spec fn gossip_signing_bytes(payload: Seq<u8>) -> Seq<u8> {
    "starling/v1/gossip-signed".spec_bytes() + payload
}

/// An envelope whose signature is 64 bytes that verify its payload under
/// its author's key.
pub open spec fn envelope_verifies(s: Signed) -> bool {
    s.sig@.len() == 64 && spec_ed25519_verify(s.author.0@, gossip_signing_bytes(s.payload@), s.sig@)
}

impl Signed {
    /// Bytes a serialized envelope adds ahead of the payload it carries.
    pub const OVERHEAD_BYTES: usize = 32 + 64 + 4;

    fn signing_bytes(payload: &[u8]) -> (out: Vec<u8>)
        ensures
            out@ == gossip_signing_bytes(payload@),
    {
        let mut out: Vec<u8> = Vec::new();
        push_text(&mut out, SIGNED_DOMAIN);
        push_raw(&mut out, payload);
        out
    }

    /// Wraps already-serialized payload bytes in an envelope signed by
    /// `secret`, whose public half becomes the author.
    pub fn sign(secret: &SecretKey, payload: Vec<u8>) -> (s: Signed)
        ensures
            s.author.0@ == spec_ed25519_public(secret.bytes()),
            s.payload@ == payload@,
            s.sig@ == spec_ed25519_sign(secret.bytes(), gossip_signing_bytes(payload@)),
            envelope_verifies(s),
    {
        let author = secret.public();
        let signing_bytes = Self::signing_bytes(payload.as_slice());
        let signature = secret.sign(signing_bytes.as_slice());
        let mut sig: Vec<u8> = Vec::new();
        push_raw(&mut sig, &signature.0);
        Signed { author, payload, sig }
    }

    /// Checks the signature against the author's key.
    pub fn verify(&self) -> (r: Result<(), SignedError>)
        ensures
            r is Ok <==> envelope_verifies(*self),
            r == Err::<(), SignedError>(SignedError::MalformedSignature) <==> self.sig@.len() != 64,
    {
        if self.sig.len() != 64 {
            return Err(SignedError::MalformedSignature);
        }
        let mut bytes: [u8; 64] = [0u8; 64];
        let mut i: usize = 0;
        while i < 64
            invariant
                0 <= i <= 64,
                self.sig@.len() == 64,
                bytes@.len() == 64,
                forall|j: int| 0 <= j < i ==> bytes@[j] == self.sig@[j],
            decreases 64 - i,
        {
            bytes.set(i, self.sig[i]);
            i += 1;
        }
        assert(bytes@ =~= self.sig@);
        let signing_bytes = Self::signing_bytes(self.payload.as_slice());
        if ed25519_verify(&self.author, signing_bytes.as_slice(), &Signature(bytes)) {
            Ok(())
        } else {
            Err(SignedError::VerificationFailed)
        }
    }
}

} // verus!
