//! Canonical, signed flock descriptor chains: the stable identity of a flock,
//! its current gossip topic and bootstrap peers, tied to membership authority.

use vstd::prelude::*;
use vstd::string::StringSliceAdditionalSpecFns;
use crate::keys::{
    bytes32_lt, bytes_lt, ed25519_verify, sha256, spec_ed25519_public, spec_ed25519_sign,
    spec_ed25519_verify, spec_sha256, EndpointId, SecretKey, Signature,
};
use crate::membership::{
    hash_view, is_admin_in, member_at_epoch_in, option32_eq, MembershipScopeId, MembershipState,
};
use crate::protocol::FlockId;
use crate::wire::{option_bytes, push_option32, push_raw, push_text, push_varint, varint, flatten};

verus! {

pub const MAX_BOOTSTRAP_PEERS: usize = 32;

/// A gossip topic, as its 32 bytes.
#[derive(Clone, Copy, Debug, PartialEq, Eq, Hash)]
pub struct TopicId(pub [u8; 32]);

impl TopicId {
    pub fn from_bytes(bytes: [u8; 32]) -> (t: TopicId)
        ensures
            t.0 == bytes,
    {
        TopicId(bytes)
    }

    pub fn as_bytes(&self) -> (b: &[u8; 32])
        ensures
            *b == self.0,
    {
        &self.0
    }
}

#[derive(Clone, Debug)]
pub struct FlockDescriptorBodyV1 {
    pub flock: FlockId,
    pub descriptor_revision: u64,
    pub previous_hash: Option<[u8; 32]>,
    pub topic_id: TopicId,
    pub membership_revision: u64,
    pub key_epoch: u64,
    pub bootstrap: Vec<EndpointId>,
}

#[derive(Clone, Debug)]
pub struct SignedFlockDescriptorV1 {
    pub body: FlockDescriptorBodyV1,
    pub signer: EndpointId,
    pub signature: Signature,
}

#[derive(Clone, Copy, Debug, PartialEq, Eq, Structural)]
pub enum DescriptorError {
    TooManyBootstrapPeers,
    /// Bootstrap peers must be strictly increasing.
    BootstrapNotSorted,
    InvalidSignature,
    NonZeroGenesisRevision,
    GenesisHasPrevious,
    /// The membership chain is not this flock's.
    ScopeMismatch,
    UnknownMembershipRevision,
    /// The descriptor's key epoch is older than its membership snapshot's.
    KeyEpochPredatesSnapshot,
    /// The signer was not an admin at the named revision and epoch.
    SignerNotAdmin,
    /// A later descriptor names another flock.
    FlockChanged,
    RevisionOverflow,
    RevisionNotNext,
    /// The previous hash is not the current head.
    Fork,
    MembershipRegressed,
    KeyEpochRegressed,
    EmptyChain,
}

pub open spec fn endpoints_view(s: Seq<EndpointId>) -> Seq<Seq<u8>> {
    s.map_values(|e: EndpointId| e.0@)
}

/// Neighbouring endpoints are strictly increasing.
pub open spec fn endpoints_sorted(s: Seq<EndpointId>) -> bool {
    forall|i: int| 0 <= i < s.len() - 1 ==> #[trigger] bytes_lt(s[i].0@, s[i + 1].0@)
}

pub open spec fn shape_result(b: FlockDescriptorBodyV1) -> Result<(), DescriptorError> {
    if b.bootstrap@.len() > MAX_BOOTSTRAP_PEERS {
        Err(DescriptorError::TooManyBootstrapPeers)
    } else if !endpoints_sorted(b.bootstrap@) {
        Err(DescriptorError::BootstrapNotSorted)
    } else {
        Ok(())
    }
}

pub open spec fn body_bytes(b: FlockDescriptorBodyV1) -> Seq<u8> {
    b.flock.0@ + varint(b.descriptor_revision as nat) + option_bytes(hash_view(b.previous_hash)) + b.topic_id.0@
        + varint(b.membership_revision as nat) + varint(b.key_epoch as nat)
        + (varint(b.bootstrap@.len()) + flatten(endpoints_view(b.bootstrap@)))
}

pub open spec fn signing_domain() -> Seq<u8> {
    "starling/flock-descriptor/v1/sign\0".spec_bytes()
}

pub open spec fn hash_domain() -> Seq<u8> {
    "starling/flock-descriptor/v1/hash\0".spec_bytes()
}

pub open spec fn topic_domain() -> Seq<u8> {
    "starling/flock-topic/v1\0".spec_bytes()
}

pub open spec fn descriptor_signing_bytes(b: FlockDescriptorBodyV1) -> Seq<u8> {
    signing_domain() + body_bytes(b)
}

pub open spec fn descriptor_hash(b: FlockDescriptorBodyV1) -> Seq<u8> {
    spec_sha256(hash_domain() + body_bytes(b))
}

pub open spec fn verify_result(d: SignedFlockDescriptorV1) -> Result<(), DescriptorError> {
    if shape_result(d.body) is Err {
        shape_result(d.body)
    } else if !spec_ed25519_verify(d.signer.0@, descriptor_signing_bytes(d.body), d.signature.0@) {
        Err(DescriptorError::InvalidSignature)
    } else {
        Ok(())
    }
}

fn push_endpoints(out: &mut Vec<u8>, items: &Vec<EndpointId>)
    ensures
        final(out)@ == old(out)@ + (varint(items@.len()) + flatten(endpoints_view(items@))),
{
    let ghost views = endpoints_view(items@);
    push_varint(out, items.len() as u64);
    let ghost start = out@;
    let mut i: usize = 0;
    while i < items.len()
        invariant
            0 <= i <= items@.len(),
            views == endpoints_view(items@),
            out@ == start + flatten(views.take(i as int)),
        decreases items.len() - i,
    {
        push_raw(out, &items[i].0);
        assert(views.take(i + 1).drop_last() =~= views.take(i as int));
        i += 1;
    }
    assert(views.take(items@.len() as int) =~= views);
    assert(final(out)@ =~= old(out)@ + (varint(views.len()) + flatten(views)));
}

/// Whether neighbouring endpoints are strictly increasing.
pub fn endpoints_are_sorted(s: &Vec<EndpointId>) -> (r: bool)
    ensures
        r == endpoints_sorted(s@),
{
    if s.len() < 2 {
        return true;
    }
    let mut i: usize = 0;
    while i + 1 < s.len()
        invariant
            0 <= i < s@.len(),
            s@.len() >= 2,
            forall|j: int| 0 <= j < i ==> #[trigger] bytes_lt(s@[j].0@, s@[j + 1].0@),
        decreases s.len() - i,
    {
        if !bytes32_lt(&s[i].0, &s[i + 1].0) {
            return false;
        }
        i += 1;
    }
    true
}

impl FlockDescriptorBodyV1 {
    pub fn validate_shape(&self) -> (r: Result<(), DescriptorError>)
        ensures
            r == shape_result(*self),
    {
        if self.bootstrap.len() > MAX_BOOTSTRAP_PEERS {
            return Err(DescriptorError::TooManyBootstrapPeers);
        }
        if !endpoints_are_sorted(&self.bootstrap) {
            return Err(DescriptorError::BootstrapNotSorted);
        }
        Ok(())
    }

    fn push_body(&self, out: &mut Vec<u8>)
        ensures
            final(out)@ == old(out)@ + body_bytes(*self),
    {
        push_raw(out, &self.flock.0);
        push_varint(out, self.descriptor_revision);
        push_option32(out, &self.previous_hash);
        push_raw(out, &self.topic_id.0);
        push_varint(out, self.membership_revision);
        push_varint(out, self.key_epoch);
        push_endpoints(out, &self.bootstrap);
        assert(out@ =~= old(out)@ + body_bytes(*self));
    }

    /// The bytes the descriptor is signed over; refused when the shape is invalid.
    pub fn canonical_bytes(&self) -> (r: Result<Vec<u8>, DescriptorError>)
        ensures
            shape_result(*self) is Err ==> r == Err::<Vec<u8>, DescriptorError>(shape_result(*self)->Err_0),
            shape_result(*self) is Ok ==> (r matches Ok(b) && b@ == descriptor_signing_bytes(*self)),
    {
        self.validate_shape()?;
        let mut out: Vec<u8> = Vec::new();
        push_text(&mut out, "starling/flock-descriptor/v1/sign\0");
        self.push_body(&mut out);
        assert(out@ =~= descriptor_signing_bytes(*self));
        Ok(out)
    }

    /// The descriptor's hash; refused when the shape is invalid.
    pub fn hash(&self) -> (r: Result<[u8; 32], DescriptorError>)
        ensures
            shape_result(*self) is Err ==> r == Err::<[u8; 32], DescriptorError>(shape_result(*self)->Err_0),
            shape_result(*self) is Ok ==> (r matches Ok(h) && h@ == descriptor_hash(*self)),
    {
        self.validate_shape()?;
        let mut out: Vec<u8> = Vec::new();
        push_text(&mut out, "starling/flock-descriptor/v1/hash\0");
        self.push_body(&mut out);
        assert(out@ =~= hash_domain() + body_bytes(*self));
        Ok(sha256(out.as_slice()))
    }

    /// Signs the descriptor with `key`, which becomes its signer.
    pub fn sign(self, key: &SecretKey) -> (r: Result<SignedFlockDescriptorV1, DescriptorError>)
        ensures
            shape_result(self) is Err ==> r == Err::<SignedFlockDescriptorV1, DescriptorError>(shape_result(self)->Err_0),
            shape_result(self) is Ok ==> (r matches Ok(d) && d.body == self && d.signer.0@ == spec_ed25519_public(key.bytes())
                && d.signature.0@ == spec_ed25519_sign(key.bytes(), descriptor_signing_bytes(self))),
            r matches Ok(d) ==> verify_result(d) is Ok,
    {
        let signer = key.public();
        let bytes = self.canonical_bytes()?;
        let signature = key.sign(bytes.as_slice());
        Ok(SignedFlockDescriptorV1 { body: self, signer, signature })
    }
}

impl SignedFlockDescriptorV1 {
    pub fn canonical_bytes(&self) -> (r: Result<Vec<u8>, DescriptorError>)
        ensures
            shape_result(self.body) is Err ==> r == Err::<Vec<u8>, DescriptorError>(shape_result(self.body)->Err_0),
            shape_result(self.body) is Ok ==> (r matches Ok(b) && b@ == descriptor_signing_bytes(self.body)),
    {
        self.body.canonical_bytes()
    }

    pub fn hash(&self) -> (r: Result<[u8; 32], DescriptorError>)
        ensures
            shape_result(self.body) is Err ==> r == Err::<[u8; 32], DescriptorError>(shape_result(self.body)->Err_0),
            shape_result(self.body) is Ok ==> (r matches Ok(h) && h@ == descriptor_hash(self.body)),
    {
        self.body.hash()
    }

    /// Checks the shape and the signature.
    pub fn verify(&self) -> (r: Result<(), DescriptorError>)
        ensures
            r == verify_result(*self),
    {
        self.body.validate_shape()?;
        let bytes = self.canonical_bytes()?;
        if !ed25519_verify(&self.signer, bytes.as_slice(), &self.signature) {
            return Err(DescriptorError::InvalidSignature);
        }
        Ok(())
    }
}

/// What checking a descriptor's authority against a membership chain yields.
pub open spec fn authority_result(b: FlockDescriptorBodyV1, signer: EndpointId, m: MembershipState) -> Result<(), DescriptorError> {
    if m.spec_scope() != MembershipScopeId::Flock(b.flock) {
        Err(DescriptorError::ScopeMismatch)
    } else if b.membership_revision > m.spec_revision() {
        Err(DescriptorError::UnknownMembershipRevision)
    } else if b.key_epoch < m.snapshot_at(b.membership_revision as int).key_epoch {
        Err(DescriptorError::KeyEpochPredatesSnapshot)
    } else if !(is_admin_in(m.snapshot_at(b.membership_revision as int).members_view(), signer)
        && member_at_epoch_in(m.snapshot_at(b.membership_revision as int).members_view(), signer, b.key_epoch)) {
        Err(DescriptorError::SignerNotAdmin)
    } else {
        Ok(())
    }
}

fn validate_membership_authority(body: &FlockDescriptorBodyV1, signer: EndpointId, membership: &MembershipState) -> (r: Result<(), DescriptorError>)
    requires
        membership.wf(),
    ensures
        r == authority_result(*body, signer, *membership),
{
    let scope = membership.scope();
    if !crate::membership::scope_eq(&scope, &MembershipScopeId::Flock(body.flock)) {
        return Err(DescriptorError::ScopeMismatch);
    }
    let snapshot = match membership.snapshot(body.membership_revision) {
        Some(s) => s,
        None => {
            return Err(DescriptorError::UnknownMembershipRevision);
        },
    };
    if body.key_epoch < snapshot.key_epoch {
        return Err(DescriptorError::KeyEpochPredatesSnapshot);
    }
    if !membership.admin_at(&signer, body.membership_revision, body.key_epoch) {
        return Err(DescriptorError::SignerNotAdmin);
    }
    Ok(())
}

/// The folded state of a descriptor chain.
#[derive(Clone, Debug)]
pub struct DescriptorState {
    flock: FlockId,
    descriptor_revision: u64,
    head_hash: [u8; 32],
    topic_id: TopicId,
    membership_revision: u64,
    key_epoch: u64,
    current: SignedFlockDescriptorV1,
}

/// What accepting `d` as the first descriptor of a chain yields.
pub open spec fn genesis_result(d: SignedFlockDescriptorV1, m: MembershipState) -> Result<(), DescriptorError> {
    if verify_result(d) is Err {
        verify_result(d)
    } else if d.body.descriptor_revision != 0 {
        Err(DescriptorError::NonZeroGenesisRevision)
    } else if d.body.previous_hash is Some {
        Err(DescriptorError::GenesisHasPrevious)
    } else {
        authority_result(d.body, d.signer, m)
    }
}

/// What applying `d` on top of the state yields.
pub open spec fn apply_result(s: DescriptorState, d: SignedFlockDescriptorV1, m: MembershipState) -> Result<(), DescriptorError> {
    if verify_result(d) is Err {
        verify_result(d)
    } else if d.body.flock != s.spec_flock() {
        Err(DescriptorError::FlockChanged)
    } else if s.spec_descriptor_revision() == u64::MAX {
        Err(DescriptorError::RevisionOverflow)
    } else if d.body.descriptor_revision != s.spec_descriptor_revision() + 1 {
        Err(DescriptorError::RevisionNotNext)
    } else if d.body.previous_hash != Some(s.spec_head_hash()) {
        Err(DescriptorError::Fork)
    } else if d.body.membership_revision < s.spec_membership_revision() {
        Err(DescriptorError::MembershipRegressed)
    } else if d.body.key_epoch < s.spec_key_epoch() {
        Err(DescriptorError::KeyEpochRegressed)
    } else {
        authority_result(d.body, d.signer, m)
    }
}

/// What applying `d` on top of a chain whose current descriptor is `cur`
/// yields.
/// A descriptor chain may follow membership forward: applying a descriptor
/// is refused as a membership regression only when it names an older
/// membership revision than the chain's, and a descriptor that passes every
/// other check and names the same or a newer membership revision is applied.
/// The same holds of a step from the chain's current descriptor.
pub proof fn lemma_membership_revision_may_advance(s: DescriptorState, d: SignedFlockDescriptorV1, m: MembershipState, cur: SignedFlockDescriptorV1)
    ensures
        apply_result(s, d, m) == Err::<(), DescriptorError>(DescriptorError::MembershipRegressed)
            ==> d.body.membership_revision < s.spec_membership_revision(),
        verify_result(d) is Ok && d.body.flock == s.spec_flock() && s.spec_descriptor_revision() < u64::MAX
            && d.body.descriptor_revision == s.spec_descriptor_revision() + 1
            && d.body.previous_hash == Some(s.spec_head_hash())
            && d.body.membership_revision >= s.spec_membership_revision()
            && d.body.key_epoch >= s.spec_key_epoch()
            && authority_result(d.body, d.signer, m) is Ok
            ==> apply_result(s, d, m) is Ok,
        step_result(cur, d, m) == Err::<(), DescriptorError>(DescriptorError::MembershipRegressed)
            ==> d.body.membership_revision < cur.body.membership_revision,
        apply_result(s, d, m) == Err::<(), DescriptorError>(DescriptorError::KeyEpochRegressed)
            ==> d.body.key_epoch < s.spec_key_epoch(),
{
}

pub open spec fn step_result(cur: SignedFlockDescriptorV1, d: SignedFlockDescriptorV1, m: MembershipState) -> Result<(), DescriptorError> {
    if verify_result(d) is Err {
        verify_result(d)
    } else if d.body.flock != cur.body.flock {
        Err(DescriptorError::FlockChanged)
    } else if cur.body.descriptor_revision == u64::MAX {
        Err(DescriptorError::RevisionOverflow)
    } else if d.body.descriptor_revision != cur.body.descriptor_revision + 1 {
        Err(DescriptorError::RevisionNotNext)
    } else if !(d.body.previous_hash matches Some(h) && h@ == descriptor_hash(cur.body)) {
        Err(DescriptorError::Fork)
    } else if d.body.membership_revision < cur.body.membership_revision {
        Err(DescriptorError::MembershipRegressed)
    } else if d.body.key_epoch < cur.body.key_epoch {
        Err(DescriptorError::KeyEpochRegressed)
    } else {
        authority_result(d.body, d.signer, m)
    }
}

/// What folding a chain yields: its last descriptor, once each was
/// accepted in turn on top of the ones before it, or the first refusal.
pub open spec fn chain_result(ds: Seq<SignedFlockDescriptorV1>, m: MembershipState) -> Result<SignedFlockDescriptorV1, DescriptorError>
    decreases ds.len(),
{
    if ds.len() == 0 {
        Err(DescriptorError::EmptyChain)
    } else if ds.len() == 1 {
        match genesis_result(ds[0], m) {
            Ok(_) => Ok(ds[0]),
            Err(e) => Err(e),
        }
    } else {
        match chain_result(ds.drop_last(), m) {
            Err(e) => Err(e),
            Ok(cur) => match step_result(cur, ds.last(), m) {
                Ok(_) => Ok(ds.last()),
                Err(e) => Err(e),
            },
        }
    }
}

/// A refusal part way along a chain is the refusal of the whole chain.
proof fn lemma_chain_refusal_stands(ds: Seq<SignedFlockDescriptorV1>, m: MembershipState, k: int)
    requires
        1 <= k <= ds.len(),
        chain_result(ds.take(k), m) is Err,
    ensures
        chain_result(ds, m) == chain_result(ds.take(k), m),
    decreases ds.len(),
{
    if k == ds.len() {
        assert(ds.take(k) =~= ds);
    } else {
        assert(ds.drop_last().take(k) =~= ds.take(k));
        lemma_chain_refusal_stands(ds.drop_last(), m, k);
    }
}

impl DescriptorState {
    pub closed spec fn spec_flock(&self) -> FlockId {
        self.flock
    }

    pub closed spec fn spec_descriptor_revision(&self) -> u64 {
        self.descriptor_revision
    }

    pub closed spec fn spec_head_hash(&self) -> [u8; 32] {
        self.head_hash
    }

    pub closed spec fn spec_topic_id(&self) -> TopicId {
        self.topic_id
    }

    pub closed spec fn spec_membership_revision(&self) -> u64 {
        self.membership_revision
    }

    pub closed spec fn spec_key_epoch(&self) -> u64 {
        self.key_epoch
    }

    pub closed spec fn spec_current(&self) -> SignedFlockDescriptorV1 {
        self.current
    }

    /// The state's fields are those of its current descriptor.
    pub closed spec fn wf(&self) -> bool {
        &&& self.flock == self.current.body.flock
        &&& self.descriptor_revision == self.current.body.descriptor_revision
        &&& self.head_hash@ == descriptor_hash(self.current.body)
        &&& self.topic_id == self.current.body.topic_id
        &&& self.membership_revision == self.current.body.membership_revision
        &&& self.key_epoch == self.current.body.key_epoch
        &&& verify_result(self.current) is Ok
    }

    /// A well-formed state mirrors its current descriptor: its flock,
    /// revision, head hash, topic, membership revision and key epoch are
    /// those the current descriptor names, and that descriptor verifies.
    pub proof fn lemma_state_mirrors_current(s: DescriptorState)
        requires
            s.wf(),
        ensures
            s.spec_flock() == s.spec_current().body.flock,
            s.spec_descriptor_revision() == s.spec_current().body.descriptor_revision,
            s.spec_head_hash()@ == descriptor_hash(s.spec_current().body),
            s.spec_topic_id() == s.spec_current().body.topic_id,
            s.spec_membership_revision() == s.spec_current().body.membership_revision,
            s.spec_key_epoch() == s.spec_current().body.key_epoch,
            verify_result(s.spec_current()) is Ok,
    {
    }

    proof fn lemma_apply_is_step(s: DescriptorState, d: SignedFlockDescriptorV1, m: MembershipState)
        requires
            s.wf(),
        ensures
            apply_result(s, d, m) == step_result(s.spec_current(), d, m),
    {
        if let Some(h) = d.body.previous_hash {
            if h@ == descriptor_hash(s.current.body) {
                assert(h =~= s.head_hash);
            }
        }
    }

    /// Starts a chain from its revision-zero descriptor.
    pub fn genesis(descriptor: SignedFlockDescriptorV1, membership: &MembershipState) -> (r: Result<DescriptorState, DescriptorError>)
        requires
            membership.wf(),
        ensures
            genesis_result(descriptor, *membership) is Err ==> r == Err::<DescriptorState, DescriptorError>(genesis_result(descriptor, *membership)->Err_0),
            genesis_result(descriptor, *membership) is Ok ==> (r matches Ok(s) && s.wf() && s.spec_current() == descriptor
                && s.spec_descriptor_revision() == 0 && s.spec_flock() == descriptor.body.flock
                && s.spec_head_hash()@ == descriptor_hash(descriptor.body) && s.spec_topic_id() == descriptor.body.topic_id
                && s.spec_membership_revision() == descriptor.body.membership_revision
                && s.spec_key_epoch() == descriptor.body.key_epoch),
    {
        descriptor.verify()?;
        if descriptor.body.descriptor_revision != 0 {
            return Err(DescriptorError::NonZeroGenesisRevision);
        }
        if descriptor.body.previous_hash.is_some() {
            return Err(DescriptorError::GenesisHasPrevious);
        }
        validate_membership_authority(&descriptor.body, descriptor.signer, membership)?;
        let head_hash = descriptor.hash()?;
        Ok(DescriptorState {
            flock: descriptor.body.flock,
            descriptor_revision: 0,
            head_hash,
            topic_id: descriptor.body.topic_id,
            membership_revision: descriptor.body.membership_revision,
            key_epoch: descriptor.body.key_epoch,
            current: descriptor,
        })
    }

    /// Applies the next descriptor: same flock, next revision, linked to the
    /// current head, no regression of membership revision or key epoch, and
    /// signed by an admin at the revision and epoch it names. On failure
    /// nothing changes.
    pub fn apply(&mut self, descriptor: SignedFlockDescriptorV1, membership: &MembershipState) -> (r: Result<(), DescriptorError>)
        requires
            old(self).wf(),
            membership.wf(),
        ensures
            final(self).wf(),
            r == apply_result(*old(self), descriptor, *membership),
            r is Err ==> *final(self) == *old(self),
            r is Ok ==> final(self).spec_current() == descriptor,
            r is Ok ==> {
                &&& final(self).spec_flock() == old(self).spec_flock()
                &&& final(self).spec_descriptor_revision() == old(self).spec_descriptor_revision() + 1
                &&& final(self).spec_head_hash()@ == descriptor_hash(descriptor.body)
                &&& final(self).spec_topic_id() == descriptor.body.topic_id
                &&& old(self).spec_membership_revision() <= final(self).spec_membership_revision()
                &&& old(self).spec_key_epoch() <= final(self).spec_key_epoch()
            },
    {
        descriptor.verify()?;
        if !crate::keys::bytes32_eq(&descriptor.body.flock.0, &self.flock.0) {
            proof {
                if descriptor.body.flock == self.flock {
                    assert(descriptor.body.flock.0@ == self.flock.0@);
                }
            }
            return Err(DescriptorError::FlockChanged);
        }
        assert(descriptor.body.flock.0 =~= self.flock.0);
        if self.descriptor_revision == u64::MAX {
            return Err(DescriptorError::RevisionOverflow);
        }
        if descriptor.body.descriptor_revision != self.descriptor_revision + 1 {
            return Err(DescriptorError::RevisionNotNext);
        }
        if !option32_eq(&descriptor.body.previous_hash, &Some(self.head_hash)) {
            return Err(DescriptorError::Fork);
        }
        if descriptor.body.membership_revision < self.membership_revision {
            return Err(DescriptorError::MembershipRegressed);
        }
        if descriptor.body.key_epoch < self.key_epoch {
            return Err(DescriptorError::KeyEpochRegressed);
        }
        validate_membership_authority(&descriptor.body, descriptor.signer, membership)?;
        let head_hash = descriptor.hash()?;
        self.descriptor_revision = descriptor.body.descriptor_revision;
        self.head_hash = head_hash;
        self.topic_id = descriptor.body.topic_id;
        self.membership_revision = descriptor.body.membership_revision;
        self.key_epoch = descriptor.body.key_epoch;
        self.current = descriptor;
        Ok(())
    }

    /// Folds a whole chain, first descriptor first.
    pub fn fold(descriptors: Vec<SignedFlockDescriptorV1>, membership: &MembershipState) -> (r: Result<DescriptorState, DescriptorError>)
        requires
            membership.wf(),
        ensures
            match chain_result(descriptors@, *membership) {
                Ok(cur) => r matches Ok(s) && s.wf() && s.spec_current() == cur,
                Err(e) => r == Err::<DescriptorState, DescriptorError>(e),
            },
            r matches Ok(s) ==> s.spec_descriptor_revision() + 1 == descriptors@.len()
                && s.spec_current() == descriptors@.last(),
    {
        if descriptors.len() == 0 {
            return Err(DescriptorError::EmptyChain);
        }
        let ghost all = descriptors@;
        let mut pending = descriptors;
        let mut rest: Vec<SignedFlockDescriptorV1> = Vec::new();
        assert(all =~= pending@ + rest@.reverse());
        while pending.len() > 1
            invariant
                pending@.len() >= 1,
                all.len() >= 1,
                all == pending@ + rest@.reverse(),
            decreases pending.len(),
        {
            let d = pending.pop().unwrap();
            rest.push(d);
            assert(all =~= pending@ + rest@.reverse());
        }
        let first = pending.pop().unwrap();
        assert(all =~= seq![first] + rest@.reverse());
        assert(all.take(1) =~= seq![first]);
        let mut state = match Self::genesis(first, membership) {
            Err(e) => {
                proof {
                    lemma_chain_refusal_stands(all, *membership, 1);
                }
                return Err(e);
            },
            Ok(s) => s,
        };
        let ghost applied: int = 1;
        while rest.len() > 0
            invariant
                state.wf(),
                membership.wf(),
                all == descriptors@,
                1 <= applied <= all.len(),
                applied + rest@.len() == all.len(),
                all == all.take(applied) + rest@.reverse(),
                state.spec_descriptor_revision() + 1 == applied,
                state.spec_current() == all[applied - 1],
                chain_result(all.take(applied), *membership) == Ok::<SignedFlockDescriptorV1, DescriptorError>(state.spec_current()),
            decreases rest.len(),
        {
            let d = rest.pop().unwrap();
            let ghost before = state;
            proof {
                assert(all[applied] == d);
                assert(all.take(applied + 1).drop_last() =~= all.take(applied));
                assert(all.take(applied + 1).last() == d);
                Self::lemma_apply_is_step(before, d, *membership);
            }
            match state.apply(d, membership) {
                Err(e) => {
                    proof {
                        let t = all.take(applied + 1);
                        assert(step_result(before.spec_current(), d, *membership) == Err::<(), DescriptorError>(e));
                        assert(t.len() == applied + 1 && t.len() >= 2);
                        assert(chain_result(t.drop_last(), *membership) == Ok::<SignedFlockDescriptorV1, DescriptorError>(before.spec_current()));
                        assert(chain_result(t, *membership) == Err::<SignedFlockDescriptorV1, DescriptorError>(e));
                        lemma_chain_refusal_stands(all, *membership, applied + 1);
                    }
                    return Err(e);
                },
                Ok(()) => {},
            }
            proof {
                assert(all.take(applied + 1) =~= all.take(applied).push(d));
                applied = applied + 1;
            }
            assert(all =~= all.take(applied) + rest@.reverse());
        }
        assert(all.take(applied) =~= all);
        Ok(state)
    }

    pub fn flock(&self) -> (r: FlockId)
        ensures
            r == self.spec_flock(),
    {
        self.flock
    }

    pub fn descriptor_revision(&self) -> (r: u64)
        ensures
            r == self.spec_descriptor_revision(),
    {
        self.descriptor_revision
    }

    pub fn head_hash(&self) -> (r: [u8; 32])
        ensures
            r == self.spec_head_hash(),
    {
        self.head_hash
    }

    pub fn topic_id(&self) -> (r: TopicId)
        ensures
            r == self.spec_topic_id(),
    {
        self.topic_id
    }

    pub fn membership_revision(&self) -> (r: u64)
        ensures
            r == self.spec_membership_revision(),
    {
        self.membership_revision
    }

    pub fn key_epoch(&self) -> (r: u64)
        ensures
            r == self.spec_key_epoch(),
    {
        self.key_epoch
    }

    pub fn current(&self) -> (r: &SignedFlockDescriptorV1)
        ensures
            *r == self.spec_current(),
    {
        &self.current
    }
}

/// The initial topic of a flock: SHA-256 of a topic domain and the flock id.
/// Later descriptors may rotate it.
pub fn derive_topic_id_v1(flock: &FlockId) -> (t: TopicId)
    ensures
        t.0@ == spec_sha256(topic_domain() + flock.0@),
{
    let mut out: Vec<u8> = Vec::new();
    push_text(&mut out, "starling/flock-topic/v1\0");
    push_raw(&mut out, &flock.0);
    TopicId(sha256(out.as_slice()))
}

} // verus!
