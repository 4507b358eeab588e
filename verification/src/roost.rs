//! Roosts: hosted spaces with channels, roles and a signed manifest chain.

pub mod perms;

use vstd::prelude::*;
use vstd::string::StringSliceAdditionalSpecFns;
use crate::keys::{
    bytes32_eq, ed25519_verify, sha256, spec_ed25519_public, spec_ed25519_sign, spec_ed25519_verify,
    spec_sha256, EndpointId, SecretKey, Signature,
};
use crate::membership::hash_view;
use crate::protocol::id::bytes16_eq;
use crate::protocol::{ChannelId, RoostId};
use crate::wire::{
    all_zero, flatten, is_all_zero, option_bytes, push_option32, push_raw, push_string, push_text,
    push_varint, text_field, utf8, utf8_len, varint,
};
use self::perms::PermState;

verus! {

pub const MANIFEST_VERSION: u16 = 1;
pub const MAX_CHANNELS: usize = 256;
pub const MAX_CHANNEL_NAME_BYTES: usize = 128;
pub const MAX_ROOST_NAME_BYTES: usize = 256;

pub type ManifestHash = [u8; 32];

/// The persisted state of a roost.
#[derive(Clone, Debug)]
pub struct RoostState {
    pub name: String,
    pub channels: Vec<String>,
    /// Roles, memberships, bans and invitations.
    pub perms: PermState,
}

/// A moderation request from a client; its sender is the authenticated peer.
#[derive(Clone, Debug)]
pub enum ModRequest {
    Ban(EndpointId),
    Kick(EndpointId),
    Invite(EndpointId),
    DeleteMessage { channel: String, id: String },
}

/// A roost's answer to a successful join: its name, each channel's secret,
/// and, from newer roosts, the control channel's secret.
#[derive(Debug)]
pub struct RoostWelcome {
    pub name: String,
    pub channels: Vec<(String, [u8; 32])>,
    pub control_secret: Option<[u8; 32]>,
}

#[derive(Clone, Debug, PartialEq, Eq)]
pub struct ChannelV1 {
    pub id: ChannelId,
    pub name: String,
    pub key_epoch: u64,
}

#[derive(Clone, Debug, PartialEq, Eq)]
pub struct ManifestV1 {
    pub version: u16,
    pub roost_id: RoostId,
    pub name: String,
    pub revision: u64,
    pub previous: Option<ManifestHash>,
    pub authority: EndpointId,
    pub membership_epoch: u64,
    pub channels: Vec<ChannelV1>,
}

#[derive(Clone, Debug)]
pub struct SignedManifestV1 {
    pub manifest: ManifestV1,
    pub signature: Signature,
}

#[derive(Clone, Debug, PartialEq, Eq)]
pub enum RoostError {
    ChannelIdZero,
    ChannelNameEmpty,
    ChannelNameTooLong,
    UnsupportedVersion,
    RoostIdZero,
    NameEmpty,
    NameTooLong,
    TooManyChannels,
    /// Revision zero without a predecessor, or a later one with.
    GenesisMismatch,
    DuplicateChannelId,
    DuplicateChannelName,
    AuthorityMismatch,
    InvalidSignature,
    /// An application hook refused, with its reason.
    Policy(String),
    UnknownPredecessor,
    PredecessorHashMismatch,
    PredecessorOtherRoost,
    RevisionNotContiguous,
    MembershipEpochRegressed,
}

/// Application policy that a manifest chain is checked against.
pub trait ManifestValidationHooks {
    fn authority_may_publish(&self, roost_id: &RoostId, membership_epoch: u64, authority: &EndpointId) -> Result<(), String>;

    fn known_manifest(&self, hash: &ManifestHash) -> Result<Option<ManifestV1>, String>;
}

pub open spec fn channel_result(c: ChannelV1) -> Result<(), RoostError> {
    if all_zero(c.id.0@) {
        Err(RoostError::ChannelIdZero)
    } else if c.name@.len() == 0 {
        Err(RoostError::ChannelNameEmpty)
    } else if utf8(c.name@).len() > MAX_CHANNEL_NAME_BYTES {
        Err(RoostError::ChannelNameTooLong)
    } else {
        Ok(())
    }
}

/// Channel `c` checked after the channels `prev`.
pub open spec fn channel_entry_result(prev: Seq<ChannelV1>, c: ChannelV1) -> Result<(), RoostError> {
    if channel_result(c) is Err {
        channel_result(c)
    } else if exists|i: int| 0 <= i < prev.len() && #[trigger] prev[i].id == c.id {
        Err(RoostError::DuplicateChannelId)
    } else if exists|i: int| 0 <= i < prev.len() && #[trigger] prev[i].name@ == c.name@ {
        Err(RoostError::DuplicateChannelName)
    } else {
        Ok(())
    }
}

/// The channels checked in order; the first failure decides.
pub open spec fn channels_result(cs: Seq<ChannelV1>) -> Result<(), RoostError>
    decreases cs.len(),
{
    if cs.len() == 0 {
        Ok(())
    } else {
        match channels_result(cs.drop_last()) {
            Err(e) => Err(e),
            Ok(_) => channel_entry_result(cs.drop_last(), cs.last()),
        }
    }
}

pub open spec fn shape_result(m: ManifestV1) -> Result<(), RoostError> {
    if m.version != MANIFEST_VERSION {
        Err(RoostError::UnsupportedVersion)
    } else if all_zero(m.roost_id.0@) {
        Err(RoostError::RoostIdZero)
    } else if m.name@.len() == 0 {
        Err(RoostError::NameEmpty)
    } else if utf8(m.name@).len() > MAX_ROOST_NAME_BYTES {
        Err(RoostError::NameTooLong)
    } else if m.channels@.len() > MAX_CHANNELS {
        Err(RoostError::TooManyChannels)
    } else if (m.revision == 0) != (m.previous is None) {
        Err(RoostError::GenesisMismatch)
    } else {
        channels_result(m.channels@)
    }
}

pub open spec fn channel_bytes(c: ChannelV1) -> Seq<u8> {
    c.id.0@ + text_field(c.name@) + varint(c.key_epoch as nat)
}

pub open spec fn manifest_bytes(m: ManifestV1) -> Seq<u8> {
    varint(m.version as nat) + m.roost_id.0@ + text_field(m.name@) + varint(m.revision as nat)
        + option_bytes(hash_view(m.previous)) + m.authority.0@ + varint(m.membership_epoch as nat)
        + (varint(m.channels@.len()) + flatten(m.channels@.map_values(|c: ChannelV1| channel_bytes(c))))
}

pub open spec fn signing_domain() -> Seq<u8> {
    "starling/roost-manifest/v1\0".spec_bytes()
}

pub open spec fn hash_domain() -> Seq<u8> {
    "starling/roost-manifest-hash/v1\0".spec_bytes()
}

pub open spec fn manifest_signing_bytes(m: ManifestV1) -> Seq<u8> {
    signing_domain() + manifest_bytes(m)
}

pub open spec fn manifest_hash(m: ManifestV1) -> Seq<u8> {
    spec_sha256(hash_domain() + manifest_bytes(m))
}

pub open spec fn verify_result(s: SignedManifestV1) -> Result<(), RoostError> {
    if shape_result(s.manifest) is Err {
        shape_result(s.manifest)
    } else if !spec_ed25519_verify(s.manifest.authority.0@, manifest_signing_bytes(s.manifest), s.signature.0@) {
        Err(RoostError::InvalidSignature)
    } else {
        Ok(())
    }
}

/// The verdict on a predecessor that the application reported for hash `h`.
/// What validating a signed manifest gives when the application answers
/// `allowed` on its authority and `found` on its predecessor: a failed
/// verification, then the application's refusal as a policy error, then
/// the check of the predecessor when there is one.
pub open spec fn manifest_validation_result(s: SignedManifestV1, allowed: Result<(), String>, found: Result<Option<ManifestV1>, String>) -> Result<(), RoostError> {
    if verify_result(s) is Err {
        verify_result(s)
    } else {
        match allowed {
            Err(reason) => Err(RoostError::Policy(reason)),
            Ok(()) => match s.manifest.previous {
                None => Ok(()),
                Some(h) => predecessor_result(s.manifest, h@, found),
            },
        }
    }
}

pub open spec fn predecessor_result(m: ManifestV1, h: Seq<u8>, found: Result<Option<ManifestV1>, String>) -> Result<(), RoostError> {
    match found {
        Err(reason) => Err(RoostError::Policy(reason)),
        Ok(None) => Err(RoostError::UnknownPredecessor),
        Ok(Some(p)) => {
            if shape_result(p) is Err {
                shape_result(p)
            } else if manifest_hash(p) != h {
                Err(RoostError::PredecessorHashMismatch)
            } else if p.roost_id != m.roost_id {
                Err(RoostError::PredecessorOtherRoost)
            } else if p.revision + 1 != m.revision {
                Err(RoostError::RevisionNotContiguous)
            } else if p.membership_epoch > m.membership_epoch {
                Err(RoostError::MembershipEpochRegressed)
            } else {
                Ok(())
            }
        },
    }
}

/// A manifest may follow membership forward: its predecessor is refused for
/// a regressed membership epoch only when the predecessor's epoch is
/// larger, and a well-formed predecessor with the expected hash, the same
/// roost and the previous revision is accepted whenever its epoch is at
/// most the manifest's.
pub proof fn lemma_membership_epoch_may_advance(m: ManifestV1, h: Seq<u8>, p: ManifestV1)
    ensures
        predecessor_result(m, h, Ok(Some(p))) == Err::<(), RoostError>(RoostError::MembershipEpochRegressed)
            ==> p.membership_epoch > m.membership_epoch,
        shape_result(p) is Ok && manifest_hash(p) == h && p.roost_id == m.roost_id && p.revision + 1 == m.revision
            && p.membership_epoch <= m.membership_epoch
            ==> predecessor_result(m, h, Ok(Some(p))) is Ok,
{
    lemma_channels_never_regress(p.channels@);
}

proof fn lemma_channels_never_regress(cs: Seq<ChannelV1>)
    ensures
        channels_result(cs) != Err::<(), RoostError>(RoostError::MembershipEpochRegressed),
    decreases cs.len(),
{
    if cs.len() > 0 {
        lemma_channels_never_regress(cs.drop_last());
    }
}

pub proof fn lemma_channels_prefix_err(cs: Seq<ChannelV1>, k: int)
    requires
        0 <= k <= cs.len(),
        channels_result(cs.take(k)) is Err,
    ensures
        channels_result(cs) == channels_result(cs.take(k)),
    decreases cs.len(),
{
    if cs.len() == k {
        assert(cs.take(k) =~= cs);
    } else {
        assert(cs.drop_last().take(k) =~= cs.take(k));
        lemma_channels_prefix_err(cs.drop_last(), k);
    }
}

fn channel_id_eq(a: &ChannelId, b: &ChannelId) -> (eq: bool)
    ensures
        eq == (*a == *b),
{
    let eq = bytes16_eq(&a.0, &b.0);
    proof {
        if eq {
            assert(a.0 =~= b.0);
        } else if *a == *b {
            assert(a.0@ == b.0@);
        }
    }
    eq
}

fn roost_id_eq(a: &RoostId, b: &RoostId) -> (eq: bool)
    ensures
        eq == (*a == *b),
{
    let eq = bytes32_eq(&a.0, &b.0);
    proof {
        if eq {
            assert(a.0 =~= b.0);
        } else if *a == *b {
            assert(a.0@ == b.0@);
        }
    }
    eq
}

impl ChannelV1 {
    pub fn validate(&self) -> (r: Result<(), RoostError>)
        ensures
            r == channel_result(*self),
    {
        if is_all_zero(&self.id.0) {
            return Err(RoostError::ChannelIdZero);
        }
        if self.name.as_str().is_empty() {
            return Err(RoostError::ChannelNameEmpty);
        }
        if utf8_len(&self.name) > MAX_CHANNEL_NAME_BYTES {
            return Err(RoostError::ChannelNameTooLong);
        }
        Ok(())
    }

    fn push_bytes(&self, out: &mut Vec<u8>)
        ensures
            final(out)@ == old(out)@ + channel_bytes(*self),
    {
        push_raw(out, &self.id.0);
        push_string(out, &self.name);
        push_varint(out, self.key_epoch);
        assert(final(out)@ =~= old(out)@ + channel_bytes(*self));
    }
}

/// Checks channel `c` against the channels before it.
fn check_channel_entry(prev: &Vec<ChannelV1>, n: usize, c: &ChannelV1) -> (r: Result<(), RoostError>)
    requires
        n <= prev@.len(),
    ensures
        r == channel_entry_result(prev@.take(n as int), *c),
{
    let ghost p = prev@.take(n as int);
    let v = c.validate();
    if v.is_err() {
        return v;
    }
    let mut j: usize = 0;
    while j < n
        invariant
            0 <= j <= n <= prev@.len(),
            p == prev@.take(n as int),
            forall|i: int| 0 <= i < j ==> #[trigger] p[i].id != c.id,
            channel_result(*c) is Ok,
        decreases n - j,
    {
        if channel_id_eq(&prev[j].id, &c.id) {
            assert(p[j as int].id == c.id);
            assert(channel_result(*c) is Ok);
            assert(exists|i: int| 0 <= i < p.len() && #[trigger] p[i].id == c.id);
            return Err(RoostError::DuplicateChannelId);
        }
        assert(p[j as int] == prev@[j as int]);
        j += 1;
    }
    let mut j: usize = 0;
    while j < n
        invariant
            0 <= j <= n <= prev@.len(),
            p == prev@.take(n as int),
            forall|i: int| 0 <= i < n ==> #[trigger] p[i].id != c.id,
            forall|i: int| 0 <= i < j ==> #[trigger] p[i].name@ != c.name@,
            channel_result(*c) is Ok,
        decreases n - j,
    {
        if prev[j].name == c.name {
            assert(p[j as int].name@ == c.name@);
            assert(channel_result(*c) is Ok);
            assert(exists|i: int| 0 <= i < p.len() && #[trigger] p[i].name@ == c.name@);
            return Err(RoostError::DuplicateChannelName);
        }
        assert(p[j as int] == prev@[j as int]);
        j += 1;
    }
    Ok(())
}

impl ManifestV1 {
    pub fn validate_shape(&self) -> (r: Result<(), RoostError>)
        ensures
            r == shape_result(*self),
    {
        if self.version != MANIFEST_VERSION {
            return Err(RoostError::UnsupportedVersion);
        }
        if is_all_zero(&self.roost_id.0) {
            return Err(RoostError::RoostIdZero);
        }
        if self.name.as_str().is_empty() {
            return Err(RoostError::NameEmpty);
        }
        if utf8_len(&self.name) > MAX_ROOST_NAME_BYTES {
            return Err(RoostError::NameTooLong);
        }
        if self.channels.len() > MAX_CHANNELS {
            return Err(RoostError::TooManyChannels);
        }
        if (self.revision == 0) != self.previous.is_none() {
            return Err(RoostError::GenesisMismatch);
        }
        let ghost cs = self.channels@;
        let mut i: usize = 0;
        while i < self.channels.len()
            invariant
                0 <= i <= cs.len(),
                cs == self.channels@,
                shape_result(*self) == channels_result(cs),
                channels_result(cs.take(i as int)) is Ok,
            decreases cs.len() - i,
        {
            let e = check_channel_entry(&self.channels, i, &self.channels[i]);
            proof {
                let t = cs.take(i + 1);
                assert(t.drop_last() =~= cs.take(i as int));
                assert(t.last() == cs[i as int]);
            }
            if e.is_err() {
                proof {
                    lemma_channels_prefix_err(cs, i + 1);
                }
                return e;
            }
            i += 1;
        }
        assert(cs.take(cs.len() as int) =~= cs);
        Ok(())
    }

    fn push_bytes(&self, out: &mut Vec<u8>)
        ensures
            final(out)@ == old(out)@ + manifest_bytes(*self),
    {
        push_varint(out, self.version as u64);
        push_raw(out, &self.roost_id.0);
        push_string(out, &self.name);
        push_varint(out, self.revision);
        push_option32(out, &self.previous);
        push_raw(out, &self.authority.0);
        push_varint(out, self.membership_epoch);
        let ghost head = out@;
        let ghost views = self.channels@.map_values(|c: ChannelV1| channel_bytes(c));
        push_varint(out, self.channels.len() as u64);
        let ghost start = out@;
        let mut i: usize = 0;
        while i < self.channels.len()
            invariant
                0 <= i <= self.channels@.len(),
                views == self.channels@.map_values(|c: ChannelV1| channel_bytes(c)),
                out@ == start + flatten(views.take(i as int)),
            decreases self.channels.len() - i,
        {
            self.channels[i].push_bytes(out);
            assert(views.take(i + 1).drop_last() =~= views.take(i as int));
            i += 1;
        }
        assert(views.take(views.len() as int) =~= views);
        assert(final(out)@ =~= old(out)@ + manifest_bytes(*self));
    }

    /// The bytes an authority signs: a domain tag and the canonical manifest.
    pub fn signing_bytes(&self) -> (r: Result<Vec<u8>, RoostError>)
        ensures
            r is Ok <==> shape_result(*self) is Ok,
            r matches Err(e) ==> shape_result(*self) == Err::<(), RoostError>(e),
            r matches Ok(b) ==> b@ == manifest_signing_bytes(*self),
    {
        let s = self.validate_shape();
        match s {
            Err(e) => Err(e),
            Ok(()) => {
                let mut out: Vec<u8> = Vec::new();
                push_text(&mut out, "starling/roost-manifest/v1\0");
                self.push_bytes(&mut out);
                Ok(out)
            },
        }
    }

    /// The manifest's hash: SHA-256 over a domain tag and the canonical
    /// manifest.
    pub fn hash(&self) -> (r: Result<ManifestHash, RoostError>)
        ensures
            r is Ok <==> shape_result(*self) is Ok,
            r matches Err(e) ==> shape_result(*self) == Err::<(), RoostError>(e),
            r matches Ok(h) ==> h@ == manifest_hash(*self),
    {
        let s = self.validate_shape();
        match s {
            Err(e) => Err(e),
            Ok(()) => {
                let mut out: Vec<u8> = Vec::new();
                push_text(&mut out, "starling/roost-manifest-hash/v1\0");
                self.push_bytes(&mut out);
                Ok(sha256(out.as_slice()))
            },
        }
    }

    /// Signs the manifest with its authority's key.
    pub fn sign(self, key: &SecretKey) -> (r: Result<SignedManifestV1, RoostError>)
        ensures
            self.authority.0@ != spec_ed25519_public(key.bytes()) ==> r == Err::<SignedManifestV1, RoostError>(RoostError::AuthorityMismatch),
            self.authority.0@ == spec_ed25519_public(key.bytes()) && shape_result(self) is Err ==> (r matches Err(e) && shape_result(self) == Err::<(), RoostError>(e)),
            self.authority.0@ == spec_ed25519_public(key.bytes()) && shape_result(self) is Ok ==> r is Ok,
            r matches Ok(s) ==> (s.manifest == self && s.signature.0@ == spec_ed25519_sign(key.bytes(), manifest_signing_bytes(self))
                && verify_result(s) is Ok),
    {
        let public = key.public();
        if !bytes32_eq(&self.authority.0, &public.0) {
            return Err(RoostError::AuthorityMismatch);
        }
        let bytes = self.signing_bytes();
        match bytes {
            Err(e) => Err(e),
            Ok(b) => {
                let signature = key.sign(b.as_slice());
                Ok(SignedManifestV1 { manifest: self, signature })
            },
        }
    }
}

impl SignedManifestV1 {
    /// Checks the shape and the authority's signature.
    pub fn verify(&self) -> (r: Result<(), RoostError>)
        ensures
            r == verify_result(*self),
    {
        let s = self.manifest.validate_shape();
        if s.is_err() {
            return s;
        }
        let bytes = self.manifest.signing_bytes();
        match bytes {
            Err(e) => Err(e),
            Ok(b) => {
                if ed25519_verify(&self.manifest.authority, b.as_slice(), &self.signature) {
                    Ok(())
                } else {
                    Err(RoostError::InvalidSignature)
                }
            },
        }
    }

    /// Checks a predecessor that the application reported for the
    /// manifest's previous hash `previous_hash`.
    pub fn check_predecessor(&self, previous_hash: &ManifestHash, found: Result<Option<ManifestV1>, String>) -> (r: Result<(), RoostError>)
        ensures
            r == predecessor_result(self.manifest, previous_hash@, found),
    {
        match found {
            Err(reason) => Err(RoostError::Policy(reason)),
            Ok(None) => Err(RoostError::UnknownPredecessor),
            Ok(Some(p)) => {
                let h = p.hash();
                match h {
                    Err(e) => Err(e),
                    Ok(h) => {
                        if !bytes32_eq(&h, previous_hash) {
                            return Err(RoostError::PredecessorHashMismatch);
                        }
                        if !roost_id_eq(&p.roost_id, &self.manifest.roost_id) {
                            return Err(RoostError::PredecessorOtherRoost);
                        }
                        if p.revision >= u64::MAX || p.revision + 1 != self.manifest.revision {
                            return Err(RoostError::RevisionNotContiguous);
                        }
                        if p.membership_epoch > self.manifest.membership_epoch {
                            return Err(RoostError::MembershipEpochRegressed);
                        }
                        Ok(())
                    },
                }
            },
        }
    }

    /// Verifies the manifest, asks the application whether its authority
    /// may publish, and checks the chain link to its predecessor.
    pub fn validate_with<H: ManifestValidationHooks>(&self, hooks: &H) -> (r: Result<(), RoostError>)
        ensures
            verify_result(*self) is Err ==> r == verify_result(*self),
            r is Ok ==> verify_result(*self) is Ok,
            r is Ok ==> (self.manifest.previous matches Some(h) ==> exists|p: ManifestV1|
                #[trigger] predecessor_result(self.manifest, h@, Ok(Some(p))) is Ok),
            exists|allowed: Result<(), String>, found: Result<Option<ManifestV1>, String>|
                r == #[trigger] manifest_validation_result(*self, allowed, found),
    {
        let v = self.verify();
        if v.is_err() {
            assert(v == manifest_validation_result(*self, Ok(()), Ok(None)));
            return v;
        }
        let allowed = hooks.authority_may_publish(&self.manifest.roost_id, self.manifest.membership_epoch, &self.manifest.authority);
        let ghost a = allowed;
        if let Err(reason) = allowed {
            assert(Err::<(), RoostError>(RoostError::Policy(reason)) == manifest_validation_result(*self, a, Ok(None)));
            return Err(RoostError::Policy(reason));
        }
        match &self.manifest.previous {
            None => {
                assert(Ok::<(), RoostError>(()) == manifest_validation_result(*self, a, Ok(None)));
                Ok(())
            },
            Some(previous_hash) => {
                let found = hooks.known_manifest(previous_hash);
                let ghost g = found;
                let r = self.check_predecessor(previous_hash, found);
                proof {
                    if r is Ok {
                        let p = g->Ok_0->Some_0;
                        assert(predecessor_result(self.manifest, previous_hash@, Ok(Some(p))) is Ok);
                    }
                    assert(r == manifest_validation_result(*self, a, g));
                }
                r
            },
        }
    }
}

} // verus!
