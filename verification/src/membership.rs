//! Canonical, signed membership authority chains: who belongs to a flock or
//! roost, in which role, and from which key epoch to which.

use vstd::prelude::*;
use vstd::string::StringSliceAdditionalSpecFns;
use crate::assoc::{
    as_map, find_key, keys_unique, lemma_lookup_index, lemma_lookup_none, lemma_lookup_push,
    lemma_lookup_remove, lemma_lookup_some, lemma_lookup_update, lookup,
};
use crate::keys::{
    ed25519_verify, sha256, spec_ed25519_public, spec_ed25519_sign, spec_ed25519_verify,
    spec_sha256, EndpointId, SecretKey, Signature,
};
use crate::protocol::{FlockId, RoostId};
use crate::wire::{option_bytes, push_option32, push_raw, push_text, push_varint, varint};

verus! {

#[derive(Clone, Copy, Debug, PartialEq, Eq, Hash, Structural)]
pub enum MemberRole {
    Admin,
    Member,
}

#[derive(Clone, Copy, Debug, PartialEq, Eq, Hash)]
pub enum MembershipScopeId {
    Flock(FlockId),
    Roost(RoostId),
}

#[derive(Clone, Copy, Debug, PartialEq, Eq)]
pub enum MembershipOperationV1 {
    Add { member: EndpointId, role: MemberRole },
    Remove { member: EndpointId },
    TransferAdmin { to: EndpointId },
}

#[derive(Clone, Copy, Debug, PartialEq, Eq)]
pub struct MembershipMutationBodyV1 {
    pub scope: MembershipScopeId,
    pub revision: u64,
    pub previous_hash: Option<[u8; 32]>,
    pub actor: EndpointId,
    pub operation: MembershipOperationV1,
    pub effective_key_epoch: u64,
}

#[derive(Clone, Copy, Debug)]
pub struct SignedMembershipMutationV1 {
    pub body: MembershipMutationBodyV1,
    pub signer: EndpointId,
    pub signature: Signature,
}

#[derive(Clone, Copy, Debug, PartialEq, Eq, Structural)]
pub struct MemberAuthorization {
    pub role: MemberRole,
    pub generation: u64,
    pub from_key_epoch: u64,
    pub until_key_epoch: Option<u64>,
}

#[derive(Clone, Copy, Debug, PartialEq, Eq, Structural)]
pub enum MembershipError {
    /// The signing key is not the mutation's actor.
    ActorNotSigner,
    /// The signer field differs from the actor.
    SignerNotActor,
    /// The signature does not verify.
    InvalidSignature,
    ScopeMismatch,
    RevisionOverflow,
    /// The revision is not the next one.
    RevisionNotNext,
    /// The previous hash is not the current head: a fork or a gap.
    Fork,
    ActorNotAdmin,
    KeyEpochOverflow,
    /// A removal must advance the key epoch by exactly one.
    RemovalEpochMismatch,
    /// Anything else must keep the key epoch.
    NonRemovalEpochChanged,
    AlreadyActive,
    GenerationOverflow,
    NotActive,
    /// The last admin cannot be removed.
    FinalAdmin,
    /// An admin transfer to oneself.
    SameEndpoints,
    TransferTargetNotMember,
}

// ---------------------------------------------------------------------------
// Canonical bytes
// ---------------------------------------------------------------------------

pub open spec fn scope_bytes(s: MembershipScopeId) -> Seq<u8> {
    match s {
        MembershipScopeId::Flock(f) => seq![0u8] + f.0@,
        MembershipScopeId::Roost(r) => seq![1u8] + r.0@,
    }
}

pub open spec fn role_byte(r: MemberRole) -> u8 {
    match r {
        MemberRole::Admin => 0u8,
        MemberRole::Member => 1u8,
    }
}

pub open spec fn operation_bytes(op: MembershipOperationV1) -> Seq<u8> {
    match op {
        MembershipOperationV1::Add { member, role } => seq![0u8] + member.0@ + seq![role_byte(role)],
        MembershipOperationV1::Remove { member } => seq![1u8] + member.0@,
        MembershipOperationV1::TransferAdmin { to } => seq![2u8] + to.0@,
    }
}

pub open spec fn hash_view(h: Option<[u8; 32]>) -> Option<Seq<u8>> {
    match h {
        None => None,
        Some(b) => Some(b@),
    }
}

pub open spec fn body_bytes(b: MembershipMutationBodyV1) -> Seq<u8> {
    scope_bytes(b.scope) + varint(b.revision as nat) + option_bytes(hash_view(b.previous_hash))
        + b.actor.0@ + operation_bytes(b.operation) + varint(b.effective_key_epoch as nat)
}

pub open spec fn signing_domain() -> Seq<u8> {
    "starling/membership-mutation/v1/sign\0".spec_bytes()
}

pub open spec fn hash_domain() -> Seq<u8> {
    "starling/membership-mutation/v1/hash\0".spec_bytes()
}

/// The bytes a mutation is signed over.
pub open spec fn mutation_signing_bytes(b: MembershipMutationBodyV1) -> Seq<u8> {
    signing_domain() + body_bytes(b)
}

/// The hash that links the next mutation to this one.
pub open spec fn mutation_hash(b: MembershipMutationBodyV1) -> Seq<u8> {
    spec_sha256(hash_domain() + body_bytes(b))
}

/// What verifying a signed mutation yields.
pub open spec fn verify_result(m: SignedMembershipMutationV1) -> Result<(), MembershipError> {
    if m.signer != m.body.actor {
        Err(MembershipError::SignerNotActor)
    } else if !spec_ed25519_verify(m.signer.0@, mutation_signing_bytes(m.body), m.signature.0@) {
        Err(MembershipError::InvalidSignature)
    } else {
        Ok(())
    }
}

pub fn push_scope(out: &mut Vec<u8>, s: &MembershipScopeId)
    ensures
        final(out)@ == old(out)@ + scope_bytes(*s),
{
    match s {
        MembershipScopeId::Flock(f) => {
            out.push(0u8);
            push_raw(out, &f.0);
            assert(out@ =~= old(out)@ + (seq![0u8] + f.0@));
        },
        MembershipScopeId::Roost(r) => {
            out.push(1u8);
            push_raw(out, &r.0);
            assert(out@ =~= old(out)@ + (seq![1u8] + r.0@));
        },
    }
}

fn push_operation(out: &mut Vec<u8>, op: &MembershipOperationV1)
    ensures
        final(out)@ == old(out)@ + operation_bytes(*op),
{
    match op {
        MembershipOperationV1::Add { member, role } => {
            out.push(0u8);
            push_raw(out, &member.0);
            let rb: u8 = match role {
                MemberRole::Admin => 0u8,
                MemberRole::Member => 1u8,
            };
            out.push(rb);
            assert(out@ =~= old(out)@ + (seq![0u8] + member.0@ + seq![role_byte(*role)]));
        },
        MembershipOperationV1::Remove { member } => {
            out.push(1u8);
            push_raw(out, &member.0);
            assert(out@ =~= old(out)@ + (seq![1u8] + member.0@));
        },
        MembershipOperationV1::TransferAdmin { to } => {
            out.push(2u8);
            push_raw(out, &to.0);
            assert(out@ =~= old(out)@ + (seq![2u8] + to.0@));
        },
    }
}

impl MembershipMutationBodyV1 {
    fn push_body(&self, out: &mut Vec<u8>)
        ensures
            final(out)@ == old(out)@ + body_bytes(*self),
    {
        push_scope(out, &self.scope);
        push_varint(out, self.revision);
        push_option32(out, &self.previous_hash);
        push_raw(out, &self.actor.0);
        push_operation(out, &self.operation);
        push_varint(out, self.effective_key_epoch);
        assert(out@ =~= old(out)@ + body_bytes(*self));
    }

    /// The bytes the mutation is signed over.
    pub fn canonical_bytes(&self) -> (bytes: Vec<u8>)
        ensures
            bytes@ == mutation_signing_bytes(*self),
    {
        let mut out: Vec<u8> = Vec::new();
        push_text(&mut out, "starling/membership-mutation/v1/sign\0");
        self.push_body(&mut out);
        assert(out@ =~= mutation_signing_bytes(*self));
        out
    }

    /// The hash that the next mutation names as its predecessor.
    pub fn hash(&self) -> (h: [u8; 32])
        ensures
            h@ == mutation_hash(*self),
    {
        let mut out: Vec<u8> = Vec::new();
        push_text(&mut out, "starling/membership-mutation/v1/hash\0");
        self.push_body(&mut out);
        assert(out@ =~= hash_domain() + body_bytes(*self));
        sha256(out.as_slice())
    }

    /// Signs the mutation; the key must be the actor's.
    pub fn sign(self, key: &SecretKey) -> (r: Result<SignedMembershipMutationV1, MembershipError>)
        ensures
            self.actor.0@ != spec_ed25519_public(key.bytes()) ==> r == Err::<SignedMembershipMutationV1, MembershipError>(MembershipError::ActorNotSigner),
            self.actor.0@ == spec_ed25519_public(key.bytes()) ==> (r matches Ok(s) && s.body == self && s.signer == self.actor
                && s.signature.0@ == spec_ed25519_sign(key.bytes(), mutation_signing_bytes(self))),
            r matches Ok(s) ==> verify_result(s) is Ok,
    {
        let public = key.public();
        if !crate::keys::bytes32_eq(&self.actor.0, &public.0) {
            return Err(MembershipError::ActorNotSigner);
        }
        assert(self.actor.0 =~= public.0);
        let bytes = self.canonical_bytes();
        let signature = key.sign(bytes.as_slice());
        Ok(SignedMembershipMutationV1 { body: self, signer: self.actor, signature })
    }
}

impl SignedMembershipMutationV1 {
    pub fn canonical_bytes(&self) -> (bytes: Vec<u8>)
        ensures
            bytes@ == mutation_signing_bytes(self.body),
    {
        self.body.canonical_bytes()
    }

    pub fn hash(&self) -> (h: [u8; 32])
        ensures
            h@ == mutation_hash(self.body),
    {
        self.body.hash()
    }

    /// Checks that the signer is the actor and that the signature verifies.
    pub fn verify(&self) -> (r: Result<(), MembershipError>)
        ensures
            r == verify_result(*self),
    {
        if !crate::keys::bytes32_eq(&self.signer.0, &self.body.actor.0) {
            proof {
                if self.signer == self.body.actor {
                    assert(self.signer.0@ == self.body.actor.0@);
                }
            }
            return Err(MembershipError::SignerNotActor);
        }
        assert(self.signer.0 =~= self.body.actor.0);
        let bytes = self.canonical_bytes();
        if !ed25519_verify(&self.signer, bytes.as_slice(), &self.signature) {
            return Err(MembershipError::InvalidSignature);
        }
        Ok(())
    }
}

// ---------------------------------------------------------------------------
// Authorizations and snapshots
// ---------------------------------------------------------------------------

pub open spec fn authorizes_spec(a: MemberAuthorization, key_epoch: u64) -> bool {
    key_epoch >= a.from_key_epoch && match a.until_key_epoch {
        None => true,
        Some(until) => key_epoch < until,
    }
}

impl MemberAuthorization {
    /// Whether this authorization interval covers `key_epoch`.
    pub fn authorizes(&self, key_epoch: u64) -> (r: bool)
        ensures
            r == authorizes_spec(*self, key_epoch),
    {
        key_epoch >= self.from_key_epoch && match self.until_key_epoch {
            None => true,
            Some(until) => key_epoch < until,
        }
    }
}

/// The membership as it stood at one revision.
#[derive(Clone, Debug)]
pub struct MembershipSnapshot {
    pub scope: MembershipScopeId,
    pub revision: u64,
    pub head_hash: Option<[u8; 32]>,
    pub key_epoch: u64,
    pub members: Vec<(EndpointId, MemberAuthorization)>,
}

pub open spec fn is_admin_in(m: Map<EndpointId, MemberAuthorization>, e: EndpointId) -> bool {
    m.contains_key(e) && m[e].role == MemberRole::Admin
}

pub open spec fn member_at_epoch_in(m: Map<EndpointId, MemberAuthorization>, e: EndpointId, epoch: u64) -> bool {
    m.contains_key(e) && authorizes_spec(m[e], epoch)
}

impl MembershipSnapshot {
    pub open spec fn members_view(&self) -> Map<EndpointId, MemberAuthorization> {
        as_map(self.members@)
    }

    pub fn member(&self, member: &EndpointId) -> (r: Option<&MemberAuthorization>)
        ensures
            r matches Some(a) ==> self.members_view().contains_key(*member) && *a == self.members_view()[*member],
            r is None ==> !self.members_view().contains_key(*member),
    {
        match find_key(&self.members, member) {
            Some(i) => Some(&self.members[i].1),
            None => None,
        }
    }

    pub fn is_member_at_epoch(&self, member: &EndpointId, key_epoch: u64) -> (r: bool)
        ensures
            r == member_at_epoch_in(self.members_view(), *member, key_epoch),
    {
        match self.member(member) {
            Some(a) => a.authorizes(key_epoch),
            None => false,
        }
    }

    pub fn is_admin(&self, member: &EndpointId) -> (r: bool)
        ensures
            r == is_admin_in(self.members_view(), *member),
    {
        match self.member(member) {
            Some(a) => match a.role {
                MemberRole::Admin => true,
                MemberRole::Member => false,
            },
            None => false,
        }
    }
}

fn copy_entries(v: &Vec<(EndpointId, MemberAuthorization)>) -> (r: Vec<(EndpointId, MemberAuthorization)>)
    ensures
        r@ == v@,
{
    let mut r: Vec<(EndpointId, MemberAuthorization)> = Vec::new();
    let mut i: usize = 0;
    while i < v.len()
        invariant
            0 <= i <= v@.len(),
            r@ == v@.take(i as int),
        decreases v.len() - i,
    {
        r.push(v[i]);
        assert(v@.take(i + 1) =~= v@.take(i as int).push(v@[i as int]));
        i += 1;
    }
    assert(v@.take(v@.len() as int) =~= v@);
    r
}

fn copy_generations(v: &Vec<(EndpointId, u64)>) -> (r: Vec<(EndpointId, u64)>)
    ensures
        r@ == v@,
{
    let mut r: Vec<(EndpointId, u64)> = Vec::new();
    let mut i: usize = 0;
    while i < v.len()
        invariant
            0 <= i <= v@.len(),
            r@ == v@.take(i as int),
        decreases v.len() - i,
    {
        r.push(v[i]);
        assert(v@.take(i + 1) =~= v@.take(i as int).push(v@[i as int]));
        i += 1;
    }
    assert(v@.take(v@.len() as int) =~= v@);
    r
}

fn copy_authorization_list(v: &Vec<MemberAuthorization>) -> (r: Vec<MemberAuthorization>)
    ensures
        r@ == v@,
{
    let mut r: Vec<MemberAuthorization> = Vec::new();
    let mut i: usize = 0;
    while i < v.len()
        invariant
            0 <= i <= v@.len(),
            r@ == v@.take(i as int),
        decreases v.len() - i,
    {
        r.push(v[i]);
        assert(v@.take(i + 1) =~= v@.take(i as int).push(v@[i as int]));
        i += 1;
    }
    assert(v@.take(v@.len() as int) =~= v@);
    r
}

/// Two snapshots with the same fields and members.
pub open spec fn same_snapshot(a: MembershipSnapshot, b: MembershipSnapshot) -> bool {
    &&& a.scope == b.scope
    &&& a.revision == b.revision
    &&& a.head_hash == b.head_hash
    &&& a.key_epoch == b.key_epoch
    &&& a.members@ == b.members@
}

/// Two membership states of the same scope that kept the same snapshots:
/// at each kept revision, the same key epoch and the same members.
pub open spec fn same_authority(a: MembershipState, b: MembershipState) -> bool {
    &&& a.spec_scope() == b.spec_scope()
    &&& a.snapshot_count() == b.snapshot_count()
    &&& forall|i: int| 0 <= i < a.snapshot_count() ==> {
        &&& (#[trigger] a.snapshot_at(i)).key_epoch == b.snapshot_at(i).key_epoch
        &&& a.snapshot_at(i).members_view() == b.snapshot_at(i).members_view()
    }
}

fn copy_auths(v: &Vec<MemberAuthorization>) -> (r: Vec<MemberAuthorization>)
    ensures
        r@ == v@,
{
    let mut r: Vec<MemberAuthorization> = Vec::new();
    let mut i: usize = 0;
    while i < v.len()
        invariant
            0 <= i <= v@.len(),
            r@ == v@.take(i as int),
        decreases v.len() - i,
    {
        r.push(v[i]);
        assert(v@.take(i + 1) =~= v@.take(i as int).push(v@[i as int]));
        i += 1;
    }
    assert(v@.take(v@.len() as int) =~= v@);
    r
}

/// The number of admins among the entries.
pub open spec fn admin_count(s: Seq<(EndpointId, MemberAuthorization)>) -> nat
    decreases s.len(),
{
    if s.len() == 0 {
        0
    } else {
        admin_count(s.drop_last()) + if s.last().1.role == MemberRole::Admin {
            1nat
        } else {
            0nat
        }
    }
}

proof fn lemma_other_admin(s: Seq<(EndpointId, MemberAuthorization)>, i: int)
    requires
        0 <= i < s.len(),
        admin_count(s) > 1,
    ensures
        exists|j: int| 0 <= j < s.len() && j != i && (#[trigger] s[j]).1.role == MemberRole::Admin,
    decreases s.len(),
{
    let n = s.len() - 1;
    if s[n].1.role == MemberRole::Admin && n != i {
        assert(s[n].1.role == MemberRole::Admin);
    } else if s[n].1.role == MemberRole::Admin {
        // i is the last entry; some earlier entry is an admin.
        lemma_admin_exists(s.drop_last());
        let j = choose|j: int| 0 <= j < s.len() - 1 && (#[trigger] s.drop_last()[j]).1.role == MemberRole::Admin;
        assert(s[j] == s.drop_last()[j]);
    } else {
        if i == n {
            lemma_admin_exists(s.drop_last());
            let j = choose|j: int| 0 <= j < s.len() - 1 && (#[trigger] s.drop_last()[j]).1.role == MemberRole::Admin;
            assert(s[j] == s.drop_last()[j]);
        } else {
            lemma_other_admin(s.drop_last(), i);
            let j = choose|j: int| 0 <= j < s.len() - 1 && j != i && (#[trigger] s.drop_last()[j]).1.role == MemberRole::Admin;
            assert(s[j] == s.drop_last()[j]);
        }
    }
}

proof fn lemma_other_admin_count(s: Seq<(EndpointId, MemberAuthorization)>, i: int, j: int)
    requires
        0 <= i < s.len(),
        0 <= j < s.len(),
        i != j,
        s[i].1.role == MemberRole::Admin,
        s[j].1.role == MemberRole::Admin,
    ensures
        admin_count(s) >= 2,
    decreases s.len(),
{
    let n = s.len() - 1;
    if i == n {
        assert(s.drop_last()[j] == s[j]);
        lemma_admin_count_at(s.drop_last(), j);
    } else if j == n {
        assert(s.drop_last()[i] == s[i]);
        lemma_admin_count_at(s.drop_last(), i);
    } else {
        assert(s.drop_last()[i] == s[i] && s.drop_last()[j] == s[j]);
        lemma_other_admin_count(s.drop_last(), i, j);
    }
}

/// Admins counted over entries with distinct keys: at least one when some
/// endpoint is admin, and one exactly when a single endpoint is.
proof fn lemma_admins_counted(ms: Seq<(EndpointId, MemberAuthorization)>)
    requires
        keys_unique(ms),
        exists|m: EndpointId| is_admin_in(as_map(ms), m),
    ensures
        admin_count(ms) >= 1,
        admin_count(ms) == 1 <==> exists|a: EndpointId| is_admin_in(as_map(ms), a)
            && forall|b: EndpointId| #[trigger] is_admin_in(as_map(ms), b) ==> b == a,
{
    let m = choose|m: EndpointId| is_admin_in(as_map(ms), m);
    let i = lemma_admin_entry(ms, m);
    lemma_admin_count_at(ms, i);
    if admin_count(ms) == 1 {
        lemma_single_admin(ms, i);
    }
    if exists|a: EndpointId| is_admin_in(as_map(ms), a) && forall|b: EndpointId| #[trigger] is_admin_in(as_map(ms), b) ==> b == a {
        let a = choose|a: EndpointId| is_admin_in(as_map(ms), a)
            && forall|b: EndpointId| #[trigger] is_admin_in(as_map(ms), b) ==> b == a;
        lemma_admin_entries_named(ms, a);
        lemma_admin_count_single(ms, a);
    }
}

proof fn lemma_admin_entry(ms: Seq<(EndpointId, MemberAuthorization)>, m: EndpointId) -> (i: int)
    requires
        is_admin_in(as_map(ms), m),
    ensures
        0 <= i < ms.len(),
        ms[i].0 == m,
        ms[i].1.role == MemberRole::Admin,
{
    lemma_lookup_some(ms, m);
    choose|i: int| 0 <= i < ms.len() && #[trigger] ms[i].0 == m && ms[i].1 == lookup(ms, m)->Some_0
}

proof fn lemma_single_admin(ms: Seq<(EndpointId, MemberAuthorization)>, i: int)
    requires
        0 <= i < ms.len(),
        ms[i].1.role == MemberRole::Admin,
        admin_count(ms) == 1,
    ensures
        forall|b: EndpointId| #[trigger] is_admin_in(as_map(ms), b) ==> b == ms[i].0,
{
    assert forall|b: EndpointId| #[trigger] is_admin_in(as_map(ms), b) implies b == ms[i].0 by {
        let j = lemma_admin_entry(ms, b);
        if j != i {
            lemma_other_admin_count(ms, i, j);
        }
    }
}

proof fn lemma_admin_entries_named(ms: Seq<(EndpointId, MemberAuthorization)>, a: EndpointId)
    requires
        keys_unique(ms),
        forall|b: EndpointId| #[trigger] is_admin_in(as_map(ms), b) ==> b == a,
    ensures
        forall|k: int| 0 <= k < ms.len() && (#[trigger] ms[k]).1.role == MemberRole::Admin ==> ms[k].0 == a,
{
    assert forall|k: int| 0 <= k < ms.len() && (#[trigger] ms[k]).1.role == MemberRole::Admin implies ms[k].0 == a by {
        lemma_lookup_index(ms, k);
        assert(is_admin_in(as_map(ms), ms[k].0));
    }
}

proof fn lemma_admin_exists(s: Seq<(EndpointId, MemberAuthorization)>)
    requires
        admin_count(s) > 0,
    ensures
        exists|j: int| 0 <= j < s.len() && (#[trigger] s[j]).1.role == MemberRole::Admin,
    decreases s.len(),
{
    let n = s.len() - 1;
    if s[n].1.role != MemberRole::Admin {
        lemma_admin_exists(s.drop_last());
        let j = choose|j: int| 0 <= j < s.len() - 1 && (#[trigger] s.drop_last()[j]).1.role == MemberRole::Admin;
        assert(s[j] == s.drop_last()[j]);
    }
}

proof fn lemma_admin_count_at(s: Seq<(EndpointId, MemberAuthorization)>, i: int)
    requires
        0 <= i < s.len(),
        s[i].1.role == MemberRole::Admin,
    ensures
        admin_count(s) >= 1,
    decreases s.len(),
{
    if i < s.len() - 1 {
        assert(s.drop_last()[i] == s[i]);
        lemma_admin_count_at(s.drop_last(), i);
    }
}

proof fn lemma_admin_count_zero(s: Seq<(EndpointId, MemberAuthorization)>)
    requires
        forall|i: int| 0 <= i < s.len() ==> (#[trigger] s[i]).1.role != MemberRole::Admin,
    ensures
        admin_count(s) == 0,
    decreases s.len(),
{
    if s.len() > 0 {
        assert forall|i: int| 0 <= i < s.len() - 1 implies (#[trigger] s.drop_last()[i]).1.role != MemberRole::Admin by {
            assert(s.drop_last()[i] == s[i]);
        }
        lemma_admin_count_zero(s.drop_last());
    }
}

proof fn lemma_admin_count_single(s: Seq<(EndpointId, MemberAuthorization)>, a: EndpointId)
    requires
        keys_unique(s),
        forall|i: int| 0 <= i < s.len() && (#[trigger] s[i]).1.role == MemberRole::Admin ==> s[i].0 == a,
    ensures
        admin_count(s) <= 1,
    decreases s.len(),
{
    if s.len() > 0 {
        let n = s.len() - 1;
        let t = s.drop_last();
        assert forall|i: int, j: int| 0 <= i < t.len() && 0 <= j < t.len() && i != j implies t[i].0 != t[j].0 by {
            assert(t[i] == s[i] && t[j] == s[j]);
        }
        assert forall|i: int| 0 <= i < t.len() && (#[trigger] t[i]).1.role == MemberRole::Admin implies t[i].0 == a by {
            assert(t[i] == s[i]);
        }
        if s[n].1.role == MemberRole::Admin {
            assert forall|i: int| 0 <= i < t.len() implies (#[trigger] t[i]).1.role != MemberRole::Admin by {
                assert(t[i] == s[i]);
                if s[i].1.role == MemberRole::Admin {
                    assert(s[i].0 == a && s[n].0 == a);
                }
            }
            lemma_admin_count_zero(t);
        } else {
            lemma_admin_count_single(t, a);
        }
    }
}

fn count_admins(v: &Vec<(EndpointId, MemberAuthorization)>) -> (n: usize)
    ensures
        n == admin_count(v@),
{
    let mut n: usize = 0;
    let mut i: usize = 0;
    while i < v.len()
        invariant
            0 <= i <= v@.len(),
            n == admin_count(v@.take(i as int)),
            n <= i,
        decreases v.len() - i,
    {
        assert(v@.take(i + 1).drop_last() =~= v@.take(i as int));
        match v[i].1.role {
            MemberRole::Admin => {
                n += 1;
            },
            MemberRole::Member => {},
        }
        i += 1;
    }
    assert(v@.take(v@.len() as int) =~= v@);
    n
}


// ---------------------------------------------------------------------------
// The membership state machine
// ---------------------------------------------------------------------------

/// The folded state of a membership chain, with every past revision kept.
#[derive(Clone, Debug)]
pub struct MembershipState {
    scope: MembershipScopeId,
    revision: u64,
    head_hash: Option<[u8; 32]>,
    key_epoch: u64,
    members: Vec<(EndpointId, MemberAuthorization)>,
    generations: Vec<(EndpointId, u64)>,
    authorizations: Vec<(EndpointId, Vec<MemberAuthorization>)>,
    snapshots: Vec<MembershipSnapshot>,
}

pub open spec fn hist_lookup(s: Seq<(EndpointId, Vec<MemberAuthorization>)>, k: EndpointId) -> Option<Seq<MemberAuthorization>> {
    match lookup(s, k) {
        Some(v) => Some(v@),
        None => None,
    }
}

pub open spec fn history_map(s: Seq<(EndpointId, Vec<MemberAuthorization>)>) -> Map<EndpointId, Seq<MemberAuthorization>> {
    Map::new(|k: EndpointId| hist_lookup(s, k) is Some, |k: EndpointId| hist_lookup(s, k)->Some_0)
}

/// The authorization a fresh `Add` grants.
pub open spec fn added_authorization(s: MembershipState, member: EndpointId, role: MemberRole, epoch: u64) -> MemberAuthorization {
    MemberAuthorization {
        role,
        generation: s.next_generation(member),
        from_key_epoch: epoch,
        until_key_epoch: None,
    }
}

pub open spec fn with_role(a: MemberAuthorization, role: MemberRole) -> MemberAuthorization {
    MemberAuthorization { role, ..a }
}

pub open spec fn closed_at(a: MemberAuthorization, epoch: u64) -> MemberAuthorization {
    MemberAuthorization { until_key_epoch: Some(epoch), ..a }
}

/// Replaces the last element.
pub open spec fn set_last<A>(s: Seq<A>, a: A) -> Seq<A> {
    s.update(s.len() - 1, a)
}

/// The members after a mutation that passed its checks.
pub open spec fn members_after(s: MembershipState, b: MembershipMutationBodyV1) -> Map<EndpointId, MemberAuthorization> {
    let m = s.members_view();
    match b.operation {
        MembershipOperationV1::Add { member, role } => m.insert(member, added_authorization(s, member, role, b.effective_key_epoch)),
        MembershipOperationV1::Remove { member } => m.remove(member),
        MembershipOperationV1::TransferAdmin { to } => m.insert(b.actor, with_role(m[b.actor], MemberRole::Member)).insert(
            to,
            with_role(m[to], MemberRole::Admin),
        ),
    }
}

/// The generations after a mutation that passed its checks.
pub open spec fn generations_after(s: MembershipState, b: MembershipMutationBodyV1) -> Map<EndpointId, u64> {
    match b.operation {
        MembershipOperationV1::Add { member, role } => s.generations_view().insert(member, s.next_generation(member)),
        _ => s.generations_view(),
    }
}

/// The authorization histories after a mutation that passed its checks.
pub open spec fn histories_after(s: MembershipState, b: MembershipMutationBodyV1) -> Map<EndpointId, Seq<MemberAuthorization>> {
    let h = s.history_view();
    match b.operation {
        MembershipOperationV1::Add { member, role } => h.insert(
            member,
            s.history_of(member).push(added_authorization(s, member, role, b.effective_key_epoch)),
        ),
        MembershipOperationV1::Remove { member } => h.insert(
            member,
            set_last(h[member], closed_at(h[member].last(), b.effective_key_epoch)),
        ),
        MembershipOperationV1::TransferAdmin { to } => h.insert(
            b.actor,
            set_last(h[b.actor], with_role(h[b.actor].last(), MemberRole::Member)),
        ).insert(to, set_last(h[to], with_role(h[to].last(), MemberRole::Admin))),
    }
}

/// `t` is the state once `m` was accepted on top of `s`.
pub open spec fn applied_to(s: MembershipState, m: SignedMembershipMutationV1, t: MembershipState) -> bool {
    &&& apply_error(s, m) is None
    &&& t.wf()
    &&& t.spec_scope() == s.spec_scope()
    &&& t.spec_revision() == s.spec_revision() + 1
    &&& t.spec_head_hash() matches Some(h) && h@ == mutation_hash(m.body)
    &&& t.spec_key_epoch() == m.body.effective_key_epoch
    &&& t.members_view() == members_after(s, m.body)
    &&& t.generations_view() == generations_after(s, m.body)
    &&& t.history_view() == histories_after(s, m.body)
    &&& forall|i: int| 0 <= i <= s.spec_revision() ==> #[trigger] t.snapshot_at(i) == s.snapshot_at(i)
}

/// `s` is a fresh chain of `scope` whose only member is `creator`, an admin.
pub open spec fn fresh_chain(s: MembershipState, scope: MembershipScopeId, creator: EndpointId) -> bool {
    &&& s.wf()
    &&& s.spec_scope() == scope
    &&& s.spec_revision() == 0
    &&& s.spec_head_hash() is None
    &&& s.spec_key_epoch() == 0
    &&& s.members_view() == map![creator => MemberAuthorization { role: MemberRole::Admin, generation: 0, from_key_epoch: 0, until_key_epoch: None }]
    &&& s.generations_view() == map![creator => 0u64]
    &&& s.history_view() == map![creator => seq![MemberAuthorization { role: MemberRole::Admin, generation: 0, from_key_epoch: 0, until_key_epoch: None }]]
}

/// `states` are the states a fresh chain goes through as the mutations
/// are accepted in order: the fresh chain, then one state per mutation.
pub open spec fn fold_trace(scope: MembershipScopeId, creator: EndpointId, ms: Seq<SignedMembershipMutationV1>, states: Seq<MembershipState>) -> bool {
    &&& states.len() == ms.len() + 1
    &&& fresh_chain(states[0], scope, creator)
    &&& forall|i: int| 0 <= i < ms.len() ==> #[trigger] applied_to(states[i], ms[i], states[i + 1])
}

/// `t` is the state once the mutations were accepted in order on a fresh
/// chain.
pub open spec fn folds_to(scope: MembershipScopeId, creator: EndpointId, ms: Seq<SignedMembershipMutationV1>, t: MembershipState) -> bool {
    exists|states: Seq<MembershipState>| #[trigger] fold_trace(scope, creator, ms, states) && states.last() == t
}

/// Folding the mutations on a fresh chain stops at one of them with `e`:
/// the ones before it were accepted in order, and it is refused with `e`.
pub open spec fn fold_refused(scope: MembershipScopeId, creator: EndpointId, ms: Seq<SignedMembershipMutationV1>, e: MembershipError) -> bool {
    exists|k: int, states: Seq<MembershipState>| 0 <= k < ms.len() && #[trigger] fold_trace(scope, creator, ms.take(k), states)
        && apply_error(states.last(), ms[k]) == Some(e)
}

/// The first check a mutation fails against the state, if any.
pub open spec fn apply_error(s: MembershipState, m: SignedMembershipMutationV1) -> Option<MembershipError> {
    let b = m.body;
    let is_remove = b.operation is Remove;
    if verify_result(m) is Err {
        Some(verify_result(m)->Err_0)
    } else if b.scope != s.spec_scope() {
        Some(MembershipError::ScopeMismatch)
    } else if s.spec_revision() == u64::MAX {
        Some(MembershipError::RevisionOverflow)
    } else if b.revision != s.spec_revision() + 1 {
        Some(MembershipError::RevisionNotNext)
    } else if b.previous_hash != s.spec_head_hash() {
        Some(MembershipError::Fork)
    } else if !is_admin_in(s.members_view(), b.actor) {
        Some(MembershipError::ActorNotAdmin)
    } else if is_remove && s.spec_key_epoch() == u64::MAX {
        Some(MembershipError::KeyEpochOverflow)
    } else if is_remove && b.effective_key_epoch != s.spec_key_epoch() + 1 {
        Some(MembershipError::RemovalEpochMismatch)
    } else if !is_remove && b.effective_key_epoch != s.spec_key_epoch() {
        Some(MembershipError::NonRemovalEpochChanged)
    } else {
        match b.operation {
            MembershipOperationV1::Add { member, role } => if s.members_view().contains_key(member) {
                Some(MembershipError::AlreadyActive)
            } else if s.generations_view().contains_key(member) && s.generations_view()[member] == u64::MAX {
                Some(MembershipError::GenerationOverflow)
            } else {
                None
            },
            MembershipOperationV1::Remove { member } => if !s.members_view().contains_key(member) {
                Some(MembershipError::NotActive)
            } else if s.members_view()[member].role == MemberRole::Admin && s.admin_total() <= 1 {
                Some(MembershipError::FinalAdmin)
            } else {
                None
            },
            MembershipOperationV1::TransferAdmin { to } => if b.actor == to {
                Some(MembershipError::SameEndpoints)
            } else if !s.members_view().contains_key(to) {
                Some(MembershipError::TransferTargetNotMember)
            } else {
                None
            },
        }
    }
}

impl MembershipState {
    pub closed spec fn spec_scope(&self) -> MembershipScopeId {
        self.scope
    }

    pub closed spec fn spec_revision(&self) -> u64 {
        self.revision
    }

    pub closed spec fn spec_head_hash(&self) -> Option<[u8; 32]> {
        self.head_hash
    }

    pub closed spec fn spec_key_epoch(&self) -> u64 {
        self.key_epoch
    }

    /// The active members and their current authorizations.
    pub closed spec fn members_view(&self) -> Map<EndpointId, MemberAuthorization> {
        as_map(self.members@)
    }

    /// The latest generation each endpoint was ever admitted under.
    pub closed spec fn generations_view(&self) -> Map<EndpointId, u64> {
        as_map(self.generations@)
    }

    /// Every authorization interval each endpoint ever held, oldest first.
    pub closed spec fn history_view(&self) -> Map<EndpointId, Seq<MemberAuthorization>> {
        history_map(self.authorizations@)
    }

    /// The snapshot recorded at revision `r` (revisions run from zero).
    pub closed spec fn snapshot_at(&self, r: int) -> MembershipSnapshot {
        self.snapshots@[r]
    }

    /// How many revisions' snapshots are kept.
    pub closed spec fn snapshot_count(&self) -> nat {
        self.snapshots@.len()
    }

    pub closed spec fn admin_total(&self) -> nat {
        admin_count(self.members@)
    }

    /// What a well-formed state keeps: one snapshot per revision, each
    /// recording its revision and scope; the latest one holding the current
    /// members, key epoch and head; and at least one admin among the
    /// current members, counted by `admin_total`, which is one exactly when
    /// a single endpoint is admin.
    pub proof fn lemma_wf_facts(s: MembershipState)
        requires
            s.wf(),
        ensures
            s.snapshot_count() == s.spec_revision() + 1,
            forall|r: int| 0 <= r < s.snapshot_count()
                ==> (#[trigger] s.snapshot_at(r)).revision == r && s.snapshot_at(r).scope == s.spec_scope(),
            s.snapshot_at(s.spec_revision() as int).members_view() == s.members_view(),
            s.snapshot_at(s.spec_revision() as int).key_epoch == s.spec_key_epoch(),
            s.snapshot_at(s.spec_revision() as int).head_hash == s.spec_head_hash(),
            exists|m: EndpointId| is_admin_in(s.members_view(), m),
            s.admin_total() >= 1,
            s.admin_total() == 1 <==> exists|a: EndpointId| is_admin_in(s.members_view(), a)
                && forall|b: EndpointId| #[trigger] is_admin_in(s.members_view(), b) ==> b == a,
    {
        lemma_admins_counted(s.members@);
    }

    pub open spec fn next_generation(&self, member: EndpointId) -> u64 {
        if self.generations_view().contains_key(member) {
            (self.generations_view()[member] + 1) as u64
        } else {
            0
        }
    }

    pub open spec fn history_of(&self, member: EndpointId) -> Seq<MemberAuthorization> {
        if self.history_view().contains_key(member) {
            self.history_view()[member]
        } else {
            Seq::empty()
        }
    }

    /// The consistency of members, generations and histories.
    pub closed spec fn wf_core(&self) -> bool {
        &&& keys_unique(self.members@)
        &&& keys_unique(self.generations@)
        &&& keys_unique(self.authorizations@)
        &&& forall|m: EndpointId| #[trigger] self.members_view().contains_key(m) ==> {
            &&& self.generations_view().contains_key(m)
            &&& self.generations_view()[m] == self.members_view()[m].generation
            &&& self.history_view().contains_key(m)
            &&& self.history_view()[m].len() > 0
            &&& self.history_view()[m].last() == self.members_view()[m]
            &&& self.members_view()[m].until_key_epoch is None
        }
        &&& forall|m: EndpointId| #[trigger] self.history_view().contains_key(m) ==> {
            &&& self.history_view()[m].len() > 0
            &&& self.generations_view().contains_key(m)
        }
    }

    /// The state's internal consistency: the snapshot of every revision is
    /// kept, the latest one matches the current members, and there is
    /// always an admin.
    pub closed spec fn wf(&self) -> bool {
        &&& self.wf_core()
        &&& self.snapshots@.len() == self.revision + 1
        &&& forall|r: int| 0 <= r < self.snapshots@.len() ==> (#[trigger] self.snapshots@[r]).revision == r
        &&& forall|r: int| 0 <= r < self.snapshots@.len() ==> (#[trigger] self.snapshots@[r]).scope == self.scope
        &&& self.snapshots@[self.revision as int].members_view() == self.members_view()
        &&& self.snapshots@[self.revision as int].key_epoch == self.key_epoch
        &&& self.snapshots@[self.revision as int].head_hash == self.head_hash
        &&& exists|m: EndpointId| is_admin_in(self.members_view(), m)
    }

    fn current_snapshot(&self) -> (snap: MembershipSnapshot)
        ensures
            snap.scope == self.scope,
            snap.revision == self.revision,
            snap.head_hash == self.head_hash,
            snap.key_epoch == self.key_epoch,
            snap.members@ == self.members@,
    {
        MembershipSnapshot {
            scope: self.scope,
            revision: self.revision,
            head_hash: self.head_hash,
            key_epoch: self.key_epoch,
            members: copy_entries(&self.members),
        }
    }

    /// A copy of the state: the same chain, members and snapshots.
    pub fn copy(&self) -> (c: MembershipState)
        ensures
            c.spec_scope() == self.spec_scope(),
            c.spec_revision() == self.spec_revision(),
            c.spec_head_hash() == self.spec_head_hash(),
            c.spec_key_epoch() == self.spec_key_epoch(),
            c.members_view() == self.members_view(),
            c.generations_view() == self.generations_view(),
            same_authority(c, *self),
            same_authority(*self, c),
    {
        let mut snapshots: Vec<MembershipSnapshot> = Vec::new();
        let mut i: usize = 0;
        while i < self.snapshots.len()
            invariant
                0 <= i <= self.snapshots@.len(),
                snapshots@.len() == i,
                forall|j: int| 0 <= j < i ==> #[trigger] same_snapshot(snapshots@[j], self.snapshots@[j]),
            decreases self.snapshots.len() - i,
        {
            let s = &self.snapshots[i];
            let copy = MembershipSnapshot {
                scope: s.scope,
                revision: s.revision,
                head_hash: s.head_hash,
                key_epoch: s.key_epoch,
                members: copy_entries(&s.members),
            };
            let ghost before = snapshots@;
            snapshots.push(copy);
            proof {
                assert forall|j: int| 0 <= j < i + 1 implies #[trigger] same_snapshot(snapshots@[j], self.snapshots@[j]) by {
                    if j < i {
                        assert(snapshots@[j] == before[j]);
                    }
                }
            }
            i += 1;
        }
        let mut authorizations: Vec<(EndpointId, Vec<MemberAuthorization>)> = Vec::new();
        let mut k: usize = 0;
        while k < self.authorizations.len()
            invariant
                0 <= k <= self.authorizations@.len(),
            decreases self.authorizations.len() - k,
        {
            let entry = &self.authorizations[k];
            authorizations.push((entry.0, copy_authorization_list(&entry.1)));
            k += 1;
        }
        let c = MembershipState {
            scope: self.scope,
            revision: self.revision,
            head_hash: self.head_hash,
            key_epoch: self.key_epoch,
            members: copy_entries(&self.members),
            generations: copy_generations(&self.generations),
            authorizations,
            snapshots,
        };
        proof {
            assert forall|i: int| 0 <= i < c.snapshot_count() implies
                (#[trigger] c.snapshot_at(i)).key_epoch == self.snapshot_at(i).key_epoch
                && c.snapshot_at(i).members_view() == self.snapshot_at(i).members_view() by {
                assert(same_snapshot(c.snapshots@[i], self.snapshots@[i]));
            }
            assert forall|i: int| 0 <= i < self.snapshot_count() implies
                (#[trigger] self.snapshot_at(i)).key_epoch == c.snapshot_at(i).key_epoch
                && self.snapshot_at(i).members_view() == c.snapshot_at(i).members_view() by {
                assert(same_snapshot(c.snapshots@[i], self.snapshots@[i]));
            }
        }
        c
    }

    /// A fresh chain whose creator is its only member, an admin.
    pub fn genesis(scope: MembershipScopeId, creator: EndpointId) -> (s: MembershipState)
        ensures
            s.wf(),
            s.spec_scope() == scope,
            s.spec_revision() == 0,
            s.spec_head_hash() is None,
            s.spec_key_epoch() == 0,
            s.members_view() == map![creator => MemberAuthorization { role: MemberRole::Admin, generation: 0, from_key_epoch: 0, until_key_epoch: None }],
            s.generations_view() == map![creator => 0u64],
            s.history_view() == map![creator => seq![MemberAuthorization { role: MemberRole::Admin, generation: 0, from_key_epoch: 0, until_key_epoch: None }]],
    {
        Self::from_flat(scope, creator, &Vec::new(), 0)
    }

    /// A state built straight from a flat member list, with no mutation
    /// chain: `admin` is the single admin, everyone else a member, all
    /// authorized from epoch zero; repeated endpoints count once.
    pub fn from_flat(scope: MembershipScopeId, admin: EndpointId, members: &Vec<EndpointId>, key_epoch: u64) -> (s: MembershipState)
        ensures
            s.wf(),
            s.spec_scope() == scope,
            s.spec_revision() == 0,
            s.spec_head_hash() is None,
            s.spec_key_epoch() == key_epoch,
            s.members_view().dom() == members@.to_set().insert(admin),
            s.members_view()[admin] == (MemberAuthorization { role: MemberRole::Admin, generation: 0, from_key_epoch: 0, until_key_epoch: None }),
            forall|m: EndpointId| #[trigger] s.members_view().contains_key(m) && m != admin ==> s.members_view()[m] == (MemberAuthorization { role: MemberRole::Member, generation: 0, from_key_epoch: 0, until_key_epoch: None }),
            s.generations_view() == Map::new(|m: EndpointId| s.members_view().contains_key(m), |m: EndpointId| 0u64),
            s.history_view() == Map::new(|m: EndpointId| s.members_view().contains_key(m), |m: EndpointId| seq![s.members_view()[m]]),
    {
        let admin_auth = MemberAuthorization { role: MemberRole::Admin, generation: 0, from_key_epoch: 0, until_key_epoch: None };
        let member_auth = MemberAuthorization { role: MemberRole::Member, generation: 0, from_key_epoch: 0, until_key_epoch: None };
        let mut ms: Vec<(EndpointId, MemberAuthorization)> = Vec::new();
        let mut gs: Vec<(EndpointId, u64)> = Vec::new();
        let mut hs: Vec<(EndpointId, Vec<MemberAuthorization>)> = Vec::new();
        ms.push((admin, admin_auth));
        gs.push((admin, 0u64));
        let mut first: Vec<MemberAuthorization> = Vec::new();
        first.push(admin_auth);
        hs.push((admin, first));
        let mut i: usize = 0;
        assert forall|k: EndpointId| (lookup(ms@, k) is Some) <==> (k == admin || #[trigger] members@.take(0).contains(k)) by {
            assert(ms@.drop_first().len() == 0);
            reveal_with_fuel(lookup, 2);
            assert(members@.take(0) =~= Seq::<EndpointId>::empty());
        }
        while i < members.len()
            invariant
                0 <= i <= members@.len(),
                ms@.len() == gs@.len(),
                ms@.len() == hs@.len(),
                ms@.len() >= 1,
                ms@[0] == (admin, admin_auth),
                forall|j: int| 0 <= j < ms@.len() ==> (#[trigger] gs@[j]) == (ms@[j].0, 0u64),
                forall|j: int| 0 <= j < ms@.len() ==> (#[trigger] hs@[j]).0 == ms@[j].0 && hs@[j].1@ == seq![ms@[j].1],
                forall|j: int| 1 <= j < ms@.len() ==> (#[trigger] ms@[j]).1 == member_auth,
                keys_unique(ms@),
                forall|k: EndpointId| (lookup(ms@, k) is Some) <==> (k == admin || #[trigger] members@.take(i as int).contains(k)),
                admin_auth == (MemberAuthorization { role: MemberRole::Admin, generation: 0, from_key_epoch: 0, until_key_epoch: None }),
                member_auth == (MemberAuthorization { role: MemberRole::Member, generation: 0, from_key_epoch: 0, until_key_epoch: None }),
            decreases members.len() - i,
        {
            let m = members[i];
            let ghost next = members@.take(i + 1);
            assert(next =~= members@.take(i as int).push(m));
            let ghost before = ms@;
            match find_key(&ms, &m) {
                Some(_) => {
                    assert forall|k: EndpointId| (lookup(ms@, k) is Some) <==> (k == admin || #[trigger] next.contains(k)) by {
                        lemma_take_push_contains(members@, i as int, k);
                    }
                },
                None => {
                    ms.push((m, member_auth));
                    gs.push((m, 0u64));
                    let mut one: Vec<MemberAuthorization> = Vec::new();
                    one.push(member_auth);
                    hs.push((m, one));
                    assert forall|k: EndpointId| (lookup(ms@, k) is Some) <==> (k == admin || #[trigger] next.contains(k)) by {
                        lemma_lookup_push(before, m, member_auth, k);
                        lemma_take_push_contains(members@, i as int, k);
                    }
                },
            }
            i += 1;
        }
        assert(members@.take(members@.len() as int) =~= members@);
        let mut s = MembershipState {
            scope,
            revision: 0,
            head_hash: None,
            key_epoch,
            members: ms,
            generations: gs,
            authorizations: hs,
            snapshots: Vec::new(),
        };
        let snap = s.current_snapshot();
        s.snapshots.push(snap);
        proof {
            assert(keys_unique(s.generations@));
            assert(keys_unique(s.authorizations@));
            assert forall|k: EndpointId| lookup(s.generations@, k) == (if lookup(s.members@, k) is Some { Some(0u64) } else { None::<u64> }) by {
                lemma_lookup_none(s.members@, k);
                lemma_lookup_none(s.generations@, k);
                if lookup(s.members@, k) is Some {
                    lemma_lookup_some(s.members@, k);
                    let j = choose|j: int| 0 <= j < s.members@.len() && #[trigger] s.members@[j].0 == k && s.members@[j].1 == lookup(s.members@, k)->Some_0;
                    lemma_lookup_index(s.generations@, j);
                }
            }
            assert forall|k: EndpointId| lookup(s.authorizations@, k) is Some == lookup(s.members@, k) is Some
                && (lookup(s.members@, k) is Some ==> lookup(s.authorizations@, k)->Some_0@ == seq![lookup(s.members@, k)->Some_0]) by {
                lemma_lookup_none(s.members@, k);
                lemma_lookup_none(s.authorizations@, k);
                if lookup(s.members@, k) is Some {
                    lemma_lookup_some(s.members@, k);
                    let j = choose|j: int| 0 <= j < s.members@.len() && #[trigger] s.members@[j].0 == k && s.members@[j].1 == lookup(s.members@, k)->Some_0;
                    lemma_lookup_index(s.authorizations@, j);
                    lemma_lookup_index(s.members@, j);
                }
            }
            lemma_lookup_index(s.members@, 0);
            assert forall|k: EndpointId| #[trigger] s.members_view().contains_key(k) && k != admin implies s.members_view()[k] == member_auth by {
                lemma_lookup_some(s.members@, k);
            }
            assert(s.members_view().dom() =~= members@.to_set().insert(admin));
            assert(s.generations_view() =~= Map::new(|m: EndpointId| s.members_view().contains_key(m), |m: EndpointId| 0u64));
            assert(s.history_view() =~= Map::new(|m: EndpointId| s.members_view().contains_key(m), |m: EndpointId| seq![s.members_view()[m]]));
            assert(s.snapshots@[0].members_view() =~= s.members_view());
            assert(is_admin_in(s.members_view(), admin));
        }
        s
    }
}

impl MembershipState {
    fn add(&mut self, member: EndpointId, role: MemberRole, epoch: u64) -> (r: Result<(), MembershipError>)
        requires
            old(self).wf_core(),
        ensures
            old(self).members_view().contains_key(member) ==> r == Err::<(), MembershipError>(MembershipError::AlreadyActive),
            !old(self).members_view().contains_key(member) && old(self).generations_view().contains_key(member)
                && old(self).generations_view()[member] == u64::MAX ==> r == Err::<(), MembershipError>(MembershipError::GenerationOverflow),
            r is Err ==> *final(self) == *old(self),
            r is Err ==> old(self).members_view().contains_key(member) || (old(self).generations_view().contains_key(member)
                && old(self).generations_view()[member] == u64::MAX),
            r is Ok ==> {
                &&& !old(self).members_view().contains_key(member)
                &&& !(old(self).generations_view().contains_key(member) && old(self).generations_view()[member] == u64::MAX)
                &&& final(self).wf_core()
                &&& final(self).members_view() == old(self).members_view().insert(member, added_authorization(*old(self), member, role, epoch))
                &&& final(self).generations_view() == old(self).generations_view().insert(member, old(self).next_generation(member))
                &&& final(self).history_view() == old(self).history_view().insert(member, old(self).history_of(member).push(added_authorization(*old(self), member, role, epoch)))
                &&& final(self).admin_total() >= old(self).admin_total()
                &&& final(self).scope == old(self).scope && final(self).revision == old(self).revision
                &&& final(self).head_hash == old(self).head_hash && final(self).key_epoch == old(self).key_epoch
                &&& final(self).snapshots@ == old(self).snapshots@
                &&& forall|m: EndpointId| is_admin_in(old(self).members_view(), m) ==> is_admin_in(final(self).members_view(), m)
            },
    {
        if find_key(&self.members, &member).is_some() {
            return Err(MembershipError::AlreadyActive);
        }
        let gi = find_key(&self.generations, &member);
        let generation: u64 = match gi {
            Some(i) => {
                let g = self.generations[i].1;
                if g == u64::MAX {
                    return Err(MembershipError::GenerationOverflow);
                }
                g + 1
            },
            None => 0,
        };
        let authorization = MemberAuthorization { role, generation, from_key_epoch: epoch, until_key_epoch: None };
        assert(authorization == added_authorization(*old(self), member, role, epoch));
        let ghost gs0 = self.generations@;
        let ghost hs0 = self.authorizations@;
        let ghost ms0 = self.members@;
        match gi {
            Some(i) => {
                self.generations.set(i, (member, generation));
            },
            None => {
                self.generations.push((member, generation));
            },
        }
        let hi = find_key(&self.authorizations, &member);
        let ghost hist_old = self.history_of(member);
        match hi {
            Some(i) => {
                let mut h = copy_auths(&self.authorizations[i].1);
                h.push(authorization);
                self.authorizations.set(i, (member, h));
            },
            None => {
                let mut h: Vec<MemberAuthorization> = Vec::new();
                h.push(authorization);
                self.authorizations.push((member, h));
            },
        }
        self.members.push((member, authorization));
        proof {
            assert forall|k: EndpointId| lookup(self.generations@, k) == (if k == member { Some(generation) } else { lookup(gs0, k) }) by {
                match gi {
                    Some(i) => { lemma_lookup_update(gs0, i as int, generation, k); },
                    None => { lemma_lookup_push(gs0, member, generation, k); },
                }
            }
            match gi {
                Some(i) => { lemma_lookup_update(gs0, i as int, generation, member); },
                None => {
                    lemma_lookup_none(gs0, member);
                    assert forall|a: int, b: int| 0 <= a < self.generations@.len() && 0 <= b < self.generations@.len() && a != b implies self.generations@[a].0 != self.generations@[b].0 by {
                        if a < gs0.len() && b < gs0.len() {} else if a == gs0.len() { assert(gs0[b].0 != member); } else { assert(gs0[a].0 != member); }
                    }
                },
            }
            assert forall|k: EndpointId| hist_lookup(self.authorizations@, k) == (if k == member { Some(hist_old.push(authorization)) } else { hist_lookup(hs0, k) }) by {
                match hi {
                    Some(i) => {
                        lemma_lookup_update(hs0, i as int, self.authorizations@[i as int].1, k);
                        lemma_lookup_index(hs0, i as int);
                    },
                    None => {
                        lemma_lookup_push(hs0, member, self.authorizations@.last().1, k);
                        lemma_lookup_none(hs0, member);
                    },
                }
            }
            match hi {
                Some(i) => { lemma_lookup_update(hs0, i as int, self.authorizations@[i as int].1, member); },
                None => {
                    lemma_lookup_none(hs0, member);
                    assert forall|a: int, b: int| 0 <= a < self.authorizations@.len() && 0 <= b < self.authorizations@.len() && a != b implies self.authorizations@[a].0 != self.authorizations@[b].0 by {
                        if a < hs0.len() && b < hs0.len() {} else if a == hs0.len() { assert(hs0[b].0 != member); } else { assert(hs0[a].0 != member); }
                    }
                },
            }
            lemma_lookup_none(ms0, member);
            assert forall|k: EndpointId| lookup(self.members@, k) == (if k == member { Some(authorization) } else { lookup(ms0, k) }) by {
                lemma_lookup_push(ms0, member, authorization, k);
            }
            assert forall|a: int, b: int| 0 <= a < self.members@.len() && 0 <= b < self.members@.len() && a != b implies self.members@[a].0 != self.members@[b].0 by {
                if a < ms0.len() && b < ms0.len() {} else if a == ms0.len() { assert(ms0[b].0 != member); } else { assert(ms0[a].0 != member); }
            }
            assert(self.members_view() =~= old(self).members_view().insert(member, authorization));
            assert(self.generations_view() =~= old(self).generations_view().insert(member, generation));
            assert(self.history_view() =~= old(self).history_view().insert(member, hist_old.push(authorization)));
            assert(self.members@.drop_last() =~= ms0);
        }
        Ok(())
    }

    fn set_role(&mut self, member: EndpointId, role: MemberRole)
        requires
            old(self).wf_core(),
            old(self).members_view().contains_key(member),
        ensures
            final(self).wf_core(),
            final(self).members_view() == old(self).members_view().insert(member, with_role(old(self).members_view()[member], role)),
            final(self).history_view() == old(self).history_view().insert(member, set_last(old(self).history_view()[member], with_role(old(self).history_view()[member].last(), role))),
            final(self).generations_view() == old(self).generations_view(),
            final(self).scope == old(self).scope && final(self).revision == old(self).revision,
            final(self).head_hash == old(self).head_hash && final(self).key_epoch == old(self).key_epoch,
            final(self).snapshots@ == old(self).snapshots@,
            final(self).generations@ == old(self).generations@,
    {
        let ghost ms0 = self.members@;
        let ghost hs0 = self.authorizations@;
        let i = match find_key(&self.members, &member) {
            Some(i) => i,
            None => {
                proof { assert(false); }
                return;
            },
        };
        let updated = MemberAuthorization { role, ..self.members[i].1 };
        self.members.set(i, (member, updated));
        let j = match find_key(&self.authorizations, &member) {
            Some(j) => j,
            None => {
                proof { assert(false); }
                return;
            },
        };
        let mut h = copy_auths(&self.authorizations[j].1);
        let n = h.len();
        proof {
            lemma_lookup_index(hs0, j as int);
            assert(n > 0);
        }
        let last = MemberAuthorization { role, ..h[n - 1] };
        h.set(n - 1, last);
        self.authorizations.set(j, (member, h));
        proof {
            assert forall|k: EndpointId| lookup(self.members@, k) == (if k == member { Some(updated) } else { lookup(ms0, k) }) by {
                lemma_lookup_update(ms0, i as int, updated, k);
            }
            lemma_lookup_update(ms0, i as int, updated, member);
            assert forall|k: EndpointId| hist_lookup(self.authorizations@, k) == (if k == member { Some(set_last(old(self).history_view()[member], with_role(old(self).history_view()[member].last(), role))) } else { hist_lookup(hs0, k) }) by {
                lemma_lookup_update(hs0, j as int, self.authorizations@[j as int].1, k);
            }
            lemma_lookup_update(hs0, j as int, self.authorizations@[j as int].1, member);
            assert(self.members_view() =~= old(self).members_view().insert(member, with_role(old(self).members_view()[member], role)));
            assert(self.history_view() =~= old(self).history_view().insert(member, set_last(old(self).history_view()[member], with_role(old(self).history_view()[member].last(), role))));
        }
    }

    fn remove(&mut self, member: EndpointId, epoch: u64) -> (r: Result<(), MembershipError>)
        requires
            old(self).wf_core(),
        ensures
            !old(self).members_view().contains_key(member) ==> r == Err::<(), MembershipError>(MembershipError::NotActive),
            old(self).members_view().contains_key(member) && old(self).members_view()[member].role == MemberRole::Admin
                && old(self).admin_total() <= 1 ==> r == Err::<(), MembershipError>(MembershipError::FinalAdmin),
            r is Err ==> *final(self) == *old(self),
            r is Err ==> !old(self).members_view().contains_key(member) || (old(self).members_view()[member].role == MemberRole::Admin
                && old(self).admin_total() <= 1),
            r is Ok ==> {
                &&& old(self).members_view().contains_key(member)
                &&& !(old(self).members_view()[member].role == MemberRole::Admin && old(self).admin_total() <= 1)
                &&& final(self).wf_core()
                &&& final(self).members_view() == old(self).members_view().remove(member)
                &&& final(self).generations_view() == old(self).generations_view()
                &&& final(self).history_view() == old(self).history_view().insert(member, set_last(old(self).history_view()[member], closed_at(old(self).history_view()[member].last(), epoch)))
                &&& final(self).scope == old(self).scope && final(self).revision == old(self).revision
                &&& final(self).head_hash == old(self).head_hash && final(self).key_epoch == old(self).key_epoch
                &&& final(self).snapshots@ == old(self).snapshots@
                &&& (exists|m: EndpointId| is_admin_in(old(self).members_view(), m)) ==> (exists|m: EndpointId| is_admin_in(final(self).members_view(), m))
            },
    {
        let ghost ms0 = self.members@;
        let ghost hs0 = self.authorizations@;
        let i = match find_key(&self.members, &member) {
            Some(i) => i,
            None => {
                return Err(MembershipError::NotActive);
            },
        };
        let current = self.members[i].1;
        assert(old(self).members_view().contains_key(member));
        let is_admin = match current.role {
            MemberRole::Admin => true,
            MemberRole::Member => false,
        };
        if is_admin && count_admins(&self.members) <= 1 {
            return Err(MembershipError::FinalAdmin);
        }
        let j = match find_key(&self.authorizations, &member) {
            Some(j) => j,
            None => {
                proof { assert(false); }
                return Err(MembershipError::NotActive);
            },
        };
        let ghost witness: EndpointId = if is_admin {
            lemma_other_admin(ms0, i as int);
            let x = choose|x: int| 0 <= x < ms0.len() && x != i && (#[trigger] ms0[x]).1.role == MemberRole::Admin;
            ms0[x].0
        } else {
            choose|m: EndpointId| is_admin_in(old(self).members_view(), m)
        };
        self.members.remove(i);
        let mut h = copy_auths(&self.authorizations[j].1);
        let n = h.len();
        proof {
            lemma_lookup_index(hs0, j as int);
            assert(n > 0);
        }
        let last = MemberAuthorization { until_key_epoch: Some(epoch), ..h[n - 1] };
        h.set(n - 1, last);
        self.authorizations.set(j, (member, h));
        proof {
            assert forall|k: EndpointId| lookup(self.members@, k) == (if k == member { None::<MemberAuthorization> } else { lookup(ms0, k) }) by {
                lemma_lookup_remove(ms0, i as int, k);
            }
            lemma_lookup_remove(ms0, i as int, member);
            assert forall|k: EndpointId| hist_lookup(self.authorizations@, k) == (if k == member { Some(set_last(old(self).history_view()[member], closed_at(old(self).history_view()[member].last(), epoch))) } else { hist_lookup(hs0, k) }) by {
                lemma_lookup_update(hs0, j as int, self.authorizations@[j as int].1, k);
            }
            lemma_lookup_update(hs0, j as int, self.authorizations@[j as int].1, member);
            assert(self.members_view() =~= old(self).members_view().remove(member));
            assert(self.history_view() =~= old(self).history_view().insert(member, set_last(old(self).history_view()[member], closed_at(old(self).history_view()[member].last(), epoch))));
            if (exists|m: EndpointId| is_admin_in(old(self).members_view(), m)) {
                if is_admin {
                    let x = choose|x: int| 0 <= x < ms0.len() && x != i && (#[trigger] ms0[x]).1.role == MemberRole::Admin && ms0[x].0 == witness;
                    lemma_lookup_index(ms0, x);
                    assert(witness != member);
                } else {
                    assert(witness != member);
                }
                assert(is_admin_in(self.members_view(), witness));
            }
        }
        Ok(())
    }

    fn transfer(&mut self, from: EndpointId, to: EndpointId) -> (r: Result<(), MembershipError>)
        requires
            old(self).wf_core(),
        ensures
            from == to ==> r == Err::<(), MembershipError>(MembershipError::SameEndpoints),
            from != to && !is_admin_in(old(self).members_view(), from) ==> r == Err::<(), MembershipError>(MembershipError::ActorNotAdmin),
            from != to && is_admin_in(old(self).members_view(), from) && !old(self).members_view().contains_key(to)
                ==> r == Err::<(), MembershipError>(MembershipError::TransferTargetNotMember),
            r is Err ==> *final(self) == *old(self),
            r is Err ==> from == to || !is_admin_in(old(self).members_view(), from) || !old(self).members_view().contains_key(to),
            r is Ok ==> {
                &&& from != to && is_admin_in(old(self).members_view(), from) && old(self).members_view().contains_key(to)
                &&& final(self).wf_core()
                &&& final(self).members_view() == old(self).members_view().insert(from, with_role(old(self).members_view()[from], MemberRole::Member)).insert(to, with_role(old(self).members_view()[to], MemberRole::Admin))
                &&& final(self).history_view() == old(self).history_view().insert(from, set_last(old(self).history_view()[from], with_role(old(self).history_view()[from].last(), MemberRole::Member))).insert(to, set_last(old(self).history_view()[to], with_role(old(self).history_view()[to].last(), MemberRole::Admin)))
                &&& final(self).generations_view() == old(self).generations_view()
                &&& final(self).scope == old(self).scope && final(self).revision == old(self).revision
                &&& final(self).head_hash == old(self).head_hash && final(self).key_epoch == old(self).key_epoch
                &&& final(self).snapshots@ == old(self).snapshots@
                &&& is_admin_in(final(self).members_view(), to)
            },
    {
        if crate::keys::bytes32_eq(&from.0, &to.0) {
            assert(from.0 =~= to.0);
            return Err(MembershipError::SameEndpoints);
        }
        proof {
            if from == to {
                assert(from.0@ == to.0@);
            }
        }
        if !self.is_admin(&from) {
            return Err(MembershipError::ActorNotAdmin);
        }
        if find_key(&self.members, &to).is_none() {
            return Err(MembershipError::TransferTargetNotMember);
        }
        self.set_role(from, MemberRole::Member);
        self.set_role(to, MemberRole::Admin);
        Ok(())
    }
}

impl MembershipState {
    pub fn scope(&self) -> (r: MembershipScopeId)
        ensures
            r == self.spec_scope(),
    {
        self.scope
    }

    pub fn revision(&self) -> (r: u64)
        ensures
            r == self.spec_revision(),
    {
        self.revision
    }

    pub fn head_hash(&self) -> (r: Option<[u8; 32]>)
        ensures
            r == self.spec_head_hash(),
    {
        self.head_hash
    }

    pub fn key_epoch(&self) -> (r: u64)
        ensures
            r == self.spec_key_epoch(),
    {
        self.key_epoch
    }

    /// The active members, each with its current authorization.
    pub fn members(&self) -> (r: &Vec<(EndpointId, MemberAuthorization)>)
        ensures
            as_map(r@) == self.members_view(),
    {
        &self.members
    }

    pub fn member(&self, member: &EndpointId) -> (r: Option<&MemberAuthorization>)
        ensures
            r matches Some(a) ==> self.members_view().contains_key(*member) && *a == self.members_view()[*member],
            r is None ==> !self.members_view().contains_key(*member),
    {
        match find_key(&self.members, member) {
            Some(i) => Some(&self.members[i].1),
            None => None,
        }
    }

    /// The snapshot recorded at `revision`, if the chain has reached it.
    pub fn snapshot(&self, revision: u64) -> (r: Option<&MembershipSnapshot>)
        ensures
            self.wf() && revision <= self.spec_revision() ==> (r matches Some(s) && *s == self.snapshot_at(revision as int)),
            self.wf() && revision > self.spec_revision() ==> r is None,
            r matches Some(s) ==> *s == self.snapshot_at(revision as int),
            r is Some <==> (revision as int) < self.snapshot_count(),
    {
        if revision < self.snapshots.len() as u64 {
            let idx = revision as usize;
            Some(&self.snapshots[idx])
        } else {
            None
        }
    }

    /// Every snapshot, indexed by revision.
    pub fn history(&self) -> (r: &Vec<MembershipSnapshot>)
        requires
            self.wf(),
        ensures
            r@.len() == self.spec_revision() + 1,
            forall|i: int| 0 <= i < r@.len() ==> #[trigger] r@[i] == self.snapshot_at(i),
    {
        &self.snapshots
    }

    /// Every authorization interval the endpoint ever held, oldest first.
    pub fn authorization_history(&self, member: &EndpointId) -> (r: &[MemberAuthorization])
        ensures
            r@ == self.history_of(*member),
    {
        match find_key(&self.authorizations, member) {
            Some(i) => self.authorizations[i].1.as_slice(),
            None => &[],
        }
    }

    pub fn is_admin(&self, member: &EndpointId) -> (r: bool)
        ensures
            r == is_admin_in(self.members_view(), *member),
    {
        match self.member(member) {
            Some(a) => match a.role {
                MemberRole::Admin => true,
                MemberRole::Member => false,
            },
            None => false,
        }
    }

    /// Whether the endpoint was a member at `revision`, authorized for `key_epoch`.
    pub fn authorized_at(&self, member: &EndpointId, revision: u64, key_epoch: u64) -> (r: bool)
        requires
            self.wf(),
        ensures
            r == (revision <= self.spec_revision() && member_at_epoch_in(self.snapshot_at(revision as int).members_view(), *member, key_epoch)),
    {
        match self.snapshot(revision) {
            Some(s) => s.is_member_at_epoch(member, key_epoch),
            None => false,
        }
    }

    /// Whether the endpoint was an admin at `revision`, authorized for `key_epoch`.
    pub fn admin_at(&self, member: &EndpointId, revision: u64, key_epoch: u64) -> (r: bool)
        requires
            self.wf(),
        ensures
            r == (revision <= self.spec_revision() && is_admin_in(self.snapshot_at(revision as int).members_view(), *member)
                && member_at_epoch_in(self.snapshot_at(revision as int).members_view(), *member, key_epoch)),
    {
        match self.snapshot(revision) {
            Some(s) => s.is_admin(member) && s.is_member_at_epoch(member, key_epoch),
            None => false,
        }
    }

    /// Applies one signed mutation. It must verify, belong to this scope,
    /// name the next revision and the current head, come from a current
    /// admin, advance the key epoch exactly on removals, and be applicable
    /// (no re-adding an active member, no removing the final admin, no
    /// transfer to oneself or to a non-member). On failure nothing changes.
    pub fn apply(&mut self, mutation: &SignedMembershipMutationV1) -> (r: Result<(), MembershipError>)
        requires
            old(self).wf(),
        ensures
            final(self).wf(),
            r is Err <==> apply_error(*old(self), *mutation) is Some,
            r matches Err(e) ==> apply_error(*old(self), *mutation) == Some(e) && *final(self) == *old(self),
            r is Ok ==> {
                &&& final(self).spec_scope() == old(self).spec_scope()
                &&& final(self).spec_revision() == mutation.body.revision
                &&& final(self).spec_revision() == old(self).spec_revision() + 1
                &&& final(self).spec_head_hash() matches Some(h) && h@ == mutation_hash(mutation.body)
                &&& final(self).spec_key_epoch() == mutation.body.effective_key_epoch
                &&& final(self).members_view() == members_after(*old(self), mutation.body)
                &&& final(self).generations_view() == generations_after(*old(self), mutation.body)
                &&& final(self).history_view() == histories_after(*old(self), mutation.body)
                &&& forall|i: int| 0 <= i <= old(self).spec_revision() ==> #[trigger] final(self).snapshot_at(i) == old(self).snapshot_at(i)
            },
    {
        let ghost s0 = *self;
        if let Err(e) = mutation.verify() {
            return Err(e);
        }
        let body = &mutation.body;
        if !scope_eq(&body.scope, &self.scope) {
            return Err(MembershipError::ScopeMismatch);
        }
        if self.revision == u64::MAX {
            return Err(MembershipError::RevisionOverflow);
        }
        let next_revision = self.revision + 1;
        if body.revision != next_revision {
            return Err(MembershipError::RevisionNotNext);
        }
        if !option32_eq(&body.previous_hash, &self.head_hash) {
            return Err(MembershipError::Fork);
        }
        if !self.is_admin(&body.actor) {
            return Err(MembershipError::ActorNotAdmin);
        }
        let is_remove = match body.operation {
            MembershipOperationV1::Remove { .. } => true,
            _ => false,
        };
        if is_remove {
            if self.key_epoch == u64::MAX {
                return Err(MembershipError::KeyEpochOverflow);
            }
            if body.effective_key_epoch != self.key_epoch + 1 {
                return Err(MembershipError::RemovalEpochMismatch);
            }
        } else if body.effective_key_epoch != self.key_epoch {
            return Err(MembershipError::NonRemovalEpochChanged);
        }
        let ghost admin_before = choose|m: EndpointId| is_admin_in(s0.members_view(), m);
        match body.operation {
            MembershipOperationV1::Add { member, role } => {
                self.add(member, role, body.effective_key_epoch)?;
                assert(is_admin_in(self.members_view(), admin_before));
            },
            MembershipOperationV1::Remove { member } => {
                self.remove(member, body.effective_key_epoch)?;
            },
            MembershipOperationV1::TransferAdmin { to } => {
                self.transfer(body.actor, to)?;
            },
        }
        self.revision = body.revision;
        self.head_hash = Some(mutation.hash());
        self.key_epoch = body.effective_key_epoch;
        let snap = self.current_snapshot();
        self.snapshots.push(snap);
        proof {
            assert(self.snapshots@[self.revision as int].members_view() == self.members_view());
            assert forall|i: int| 0 <= i <= s0.spec_revision() implies #[trigger] self.snapshot_at(i) == s0.snapshot_at(i) by {
                assert(self.snapshots@[i] == s0.snapshots@[i]);
            }
            if let MembershipOperationV1::TransferAdmin { to } = body.operation {
                assert(is_admin_in(self.members_view(), to));
            }
        }
        Ok(())
    }

    /// The state after applying `mutations` in order to a fresh chain.
    pub fn fold(scope: MembershipScopeId, creator: EndpointId, mutations: &Vec<SignedMembershipMutationV1>) -> (r: Result<MembershipState, MembershipError>)
        ensures
            r matches Ok(s) ==> folds_to(scope, creator, mutations@, s),
            r matches Ok(s) ==> s.wf() && s.spec_scope() == scope && s.spec_revision() == mutations@.len(),
            r matches Err(e) ==> fold_refused(scope, creator, mutations@, e),
    {
        let mut state = Self::genesis(scope, creator);
        let mut i: usize = 0;
        let ghost mut trace: Seq<MembershipState> = seq![state];
        assert(mutations@.take(0) =~= Seq::<SignedMembershipMutationV1>::empty());
        assert(fold_trace(scope, creator, mutations@.take(0), trace));
        while i < mutations.len()
            invariant
                0 <= i <= mutations@.len(),
                state.wf(),
                state.spec_scope() == scope,
                state.spec_revision() == i,
                fold_trace(scope, creator, mutations@.take(i as int), trace),
                trace.last() == state,
            decreases mutations.len() - i,
        {
            let ghost before = state;
            match state.apply(&mutations[i]) {
                Err(e) => {
                    assert(apply_error(before, mutations@[i as int]) == Some(e));
                    return Err(e);
                },
                Ok(()) => {},
            }
            proof {
                let t = mutations@.take(i + 1);
                let next = trace.push(state);
                assert(applied_to(before, mutations@[i as int], state));
                assert forall|j: int| 0 <= j < t.len() implies #[trigger] applied_to(next[j], t[j], next[j + 1]) by {
                    if j < i {
                        assert(mutations@.take(i as int)[j] == t[j]);
                        assert(applied_to(trace[j], mutations@.take(i as int)[j], trace[j + 1]));
                    } else {
                        assert(next[j] == before);
                        assert(t[j] == mutations@[i as int]);
                    }
                }
                assert(fold_trace(scope, creator, t, next));
                trace = next;
            }
            i += 1;
        }
        assert(mutations@.take(i as int) =~= mutations@);
        assert(fold_trace(scope, creator, mutations@, trace));
        Ok(state)
    }
}

/// Equality of two membership scopes.
pub fn scope_eq(a: &MembershipScopeId, b: &MembershipScopeId) -> (eq: bool)
    ensures
        eq == (*a == *b),
{
    match (a, b) {
        (MembershipScopeId::Flock(x), MembershipScopeId::Flock(y)) => {
            let e = crate::keys::bytes32_eq(&x.0, &y.0);
            proof {
                if e {
                    assert(x.0 =~= y.0);
                }
            }
            e
        },
        (MembershipScopeId::Roost(x), MembershipScopeId::Roost(y)) => {
            let e = crate::keys::bytes32_eq(&x.0, &y.0);
            proof {
                if e {
                    assert(x.0 =~= y.0);
                }
            }
            e
        },
        _ => false,
    }
}

/// Equality of two optional 32-byte values.
pub fn option32_eq(a: &Option<[u8; 32]>, b: &Option<[u8; 32]>) -> (eq: bool)
    ensures
        eq == (*a == *b),
{
    match (a, b) {
        (None, None) => true,
        (Some(x), Some(y)) => {
            let e = crate::keys::bytes32_eq(x, y);
            proof {
                if e {
                    assert(*x =~= *y);
                }
            }
            e
        },
        _ => false,
    }
}

proof fn lemma_take_push_contains<A>(s: Seq<A>, i: int, k: A)
    requires
        0 <= i < s.len(),
    ensures
        s.take(i + 1).contains(k) <==> (s.take(i).contains(k) || k == s[i]),
{
    let t1 = s.take(i + 1);
    let t0 = s.take(i);
    assert(t1 =~= t0.push(s[i]));
    if t1.contains(k) && k != s[i] {
        let x = choose|x: int| 0 <= x < t1.len() && t1[x] == k;
        assert(t0[x] == k);
    }
    if t0.contains(k) {
        let x = choose|x: int| 0 <= x < t0.len() && t0[x] == k;
        assert(t1[x] == k);
    }
    if k == s[i] {
        assert(t1[i] == k);
    }
}

proof fn lemma_admin_count_pos(s: Seq<(EndpointId, MemberAuthorization)>)
    requires
        s.len() > 0,
        s[0].1.role == MemberRole::Admin,
    ensures
        admin_count(s) >= 1,
    decreases s.len(),
{
    if s.len() > 1 {
        assert(s.drop_last()[0] == s[0]);
        lemma_admin_count_pos(s.drop_last());
    }
}

} // verus!
