//! Short-lived, signed, space-scoped presence leases, and a tracker that
//! refuses replays and forgets liveness at monotonic deadlines.

use vstd::prelude::*;
use vstd::string::StringSliceAdditionalSpecFns;
use std::time::Duration;
use crate::assoc::{lemma_lookup_push, lemma_lookup_update_first, lookup};
use crate::admission::{spec_duration_secs, spec_duration_subsec_nanos};
use crate::call::{saturate, saturating_add_i64, saturating_sub_i64};
use crate::history::{membership_scope, membership_scope_spec};
use crate::keys::{
    bytes32_eq, ed25519_verify, spec_ed25519_public, spec_ed25519_sign, spec_ed25519_verify, EndpointId, SecretKey,
    Signature,
};
use crate::membership::{member_at_epoch_in, scope_eq, MembershipState};
use crate::protocol::id::{push_space, space_bytes, space_eq};
use crate::protocol::SpaceId;
use crate::wire::{push_raw, push_text, push_varint, varint, zigzag, zigzag_u64};

verus! {

pub const MAX_LEASE_SECS: u64 = 60;
pub const MAX_LEASE_MS: i64 = 60000;

/// How many membership revisions a lease may lag behind the current view.
pub const REVISION_LAG: u64 = 2;

#[derive(Clone, Copy, Debug, PartialEq, Eq)]
pub struct PresenceLeaseBodyV1 {
    pub space: SpaceId,
    pub endpoint: EndpointId,
    pub sequence: u64,
    pub issued_unix_ms: i64,
    pub expiry_unix_ms: i64,
}

#[derive(Clone, Copy, Debug)]
pub struct SignedPresenceLeaseV1 {
    pub body: PresenceLeaseBodyV1,
    pub signature: Signature,
}

#[derive(Clone, Copy, Debug, PartialEq, Eq, Structural)]
pub enum PresenceError {
    EndpointMismatch,
    NegativeSkew,
    InvalidSignature,
    ExpiryNotAfterIssue,
    DurationOverflow,
    TooLong,
    IssuedInFuture,
    Expired,
    ScopeMismatch,
    NotCurrentMember,
    /// The sequence does not exceed the last accepted one.
    Replay,
}

/// A lease accepted for a space and endpoint: when it stops being live, in
/// milliseconds of the caller's monotonic clock, and its sequence.
#[derive(Clone, Copy, Debug, PartialEq, Eq, Structural)]
pub struct LivePresence {
    pub deadline: u64,
    pub sequence: u64,
}

/// A lease after expiry at `now`: a deadline that has passed becomes `now`.
pub open spec fn expired_at(l: LivePresence, now: u64) -> LivePresence {
    if l.deadline <= now {
        LivePresence { deadline: now, sequence: l.sequence }
    } else {
        l
    }
}

pub open spec fn lease_bytes(b: PresenceLeaseBodyV1) -> Seq<u8> {
    "starling/v1/presence-lease".spec_bytes() + space_bytes(b.space) + b.endpoint.0@ + varint(b.sequence as nat)
        + varint(zigzag(b.issued_unix_ms as int)) + varint(zigzag(b.expiry_unix_ms as int))
}

/// What verifying a lease at `now_ms` gives: the milliseconds it has left.
pub open spec fn lease_result(s: SignedPresenceLeaseV1, now_ms: i64, max_skew_ms: i64) -> Result<u64, PresenceError> {
    let b = s.body;
    if max_skew_ms < 0 {
        Err(PresenceError::NegativeSkew)
    } else if !spec_ed25519_verify(b.endpoint.0@, lease_bytes(b), s.signature.0@) {
        Err(PresenceError::InvalidSignature)
    } else if !(b.expiry_unix_ms > b.issued_unix_ms) {
        Err(PresenceError::ExpiryNotAfterIssue)
    } else if b.expiry_unix_ms - b.issued_unix_ms > i64::MAX {
        Err(PresenceError::DurationOverflow)
    } else if b.expiry_unix_ms - b.issued_unix_ms > MAX_LEASE_MS {
        Err(PresenceError::TooLong)
    } else if !(b.issued_unix_ms <= saturate(now_ms + max_skew_ms)) {
        Err(PresenceError::IssuedInFuture)
    } else if !(saturate(b.expiry_unix_ms - now_ms) > 0) {
        Err(PresenceError::Expired)
    } else {
        Ok(saturate(b.expiry_unix_ms - now_ms) as u64)
    }
}

impl PresenceLeaseBodyV1 {
    /// The bytes a lease is signed over: a domain tag and the canonical body.
    pub fn canonical_bytes(&self) -> (b: Vec<u8>)
        ensures
            b@ == lease_bytes(*self),
    {
        let mut out: Vec<u8> = Vec::new();
        push_text(&mut out, "starling/v1/presence-lease");
        push_space(&mut out, &self.space);
        push_raw(&mut out, &self.endpoint.0);
        push_varint(&mut out, self.sequence);
        push_varint(&mut out, zigzag_u64(self.issued_unix_ms));
        push_varint(&mut out, zigzag_u64(self.expiry_unix_ms));
        assert(out@ =~= lease_bytes(*self));
        out
    }

    /// Signs the lease with the endpoint's key.
    pub fn sign(self, secret: &SecretKey) -> (r: Result<SignedPresenceLeaseV1, PresenceError>)
        ensures
            self.endpoint.0@ != spec_ed25519_public(secret.bytes()) ==> r == Err::<SignedPresenceLeaseV1, PresenceError>(PresenceError::EndpointMismatch),
            self.endpoint.0@ == spec_ed25519_public(secret.bytes()) ==> (r matches Ok(s) && s.body == self
                && s.signature.0@ == spec_ed25519_sign(secret.bytes(), lease_bytes(self))
                && spec_ed25519_verify(self.endpoint.0@, lease_bytes(self), s.signature.0@)),
    {
        let public = secret.public();
        if !bytes32_eq(&public.0, &self.endpoint.0) {
            return Err(PresenceError::EndpointMismatch);
        }
        let bytes = self.canonical_bytes();
        let signature = secret.sign(bytes.as_slice());
        Ok(SignedPresenceLeaseV1 { body: self, signature })
    }
}

/// A duration of `ms` milliseconds: wraps `Duration::from_millis`; its
/// whole seconds and the nanoseconds past them are those of `ms`.
#[verifier::external_body]
fn duration_from_millis(ms: u64) -> (d: Duration)
    ensures
        spec_duration_secs(d) == ms / 1000,
        spec_duration_subsec_nanos(d) == (ms % 1000) * 1_000_000,
{
    Duration::from_millis(ms)
}

/// The monotonic deadline `remaining_ms` after `now_ms`, held at the
/// clock's largest reading.
pub fn lease_deadline(now_ms: u64, remaining_ms: u64) -> (d: u64)
    ensures
        d == (if now_ms + remaining_ms > u64::MAX { u64::MAX as int } else { now_ms + remaining_ms }),
{
    now_ms.saturating_add(remaining_ms)
}

impl SignedPresenceLeaseV1 {
    /// Verifies the signature and the signed wall-clock bounds at `now_ms`
    /// and returns the milliseconds the lease has left.
    pub fn verify_remaining_ms(&self, now_ms: i64, max_skew_ms: i64) -> (r: Result<u64, PresenceError>)
        ensures
            r == lease_result(*self, now_ms, max_skew_ms),
    {
        if max_skew_ms < 0 {
            return Err(PresenceError::NegativeSkew);
        }
        let bytes = self.body.canonical_bytes();
        if !ed25519_verify(&self.body.endpoint, bytes.as_slice(), &self.signature) {
            return Err(PresenceError::InvalidSignature);
        }
        if !(self.body.expiry_unix_ms > self.body.issued_unix_ms) {
            return Err(PresenceError::ExpiryNotAfterIssue);
        }
        let duration = self.body.expiry_unix_ms.checked_sub(self.body.issued_unix_ms);
        match duration {
            None => {
                return Err(PresenceError::DurationOverflow);
            },
            Some(d) => {
                if d > MAX_LEASE_MS {
                    return Err(PresenceError::TooLong);
                }
            },
        }
        if !(self.body.issued_unix_ms <= saturating_add_i64(now_ms, max_skew_ms)) {
            return Err(PresenceError::IssuedInFuture);
        }
        let remaining = saturating_sub_i64(self.body.expiry_unix_ms, now_ms);
        if !(remaining > 0) {
            return Err(PresenceError::Expired);
        }
        Ok(remaining as u64)
    }

    /// Verifies the lease and returns how long it has left; callers turn
    /// this into a monotonic deadline at once.
    pub fn verify(&self, now_ms: i64, max_skew_ms: i64) -> (r: Result<Duration, PresenceError>)
        ensures
            r is Ok <==> lease_result(*self, now_ms, max_skew_ms) is Ok,
            r matches Err(e) ==> lease_result(*self, now_ms, max_skew_ms) == Err::<u64, PresenceError>(e),
            r matches Ok(d) ==> (lease_result(*self, now_ms, max_skew_ms) matches Ok(ms)
                && spec_duration_secs(d) == ms / 1000 && spec_duration_subsec_nanos(d) == (ms % 1000) * 1_000_000),
    {
        match self.verify_remaining_ms(now_ms, max_skew_ms) {
            Err(e) => Err(e),
            Ok(ms) => Ok(duration_from_millis(ms)),
        }
    }
}

pub type PresenceKey = (SpaceId, EndpointId);

/// The accepted leases of each space and endpoint; replay and liveness are
/// kept apart per pair.
pub struct PresenceTracker {
    accepted: Vec<(PresenceKey, LivePresence)>,
}

impl PresenceTracker {
    /// The lease last accepted for each space and endpoint.
    pub closed spec fn leases(&self) -> Map<PresenceKey, LivePresence> {
        crate::assoc::as_map(self.accepted@)
    }

    /// The sequence last accepted for each space and endpoint.
    pub closed spec fn sequences(&self) -> Map<PresenceKey, u64> {
        Map::new(|k: PresenceKey| lookup(self.accepted@, k) is Some, |k: PresenceKey| lookup(self.accepted@, k)->Some_0.sequence)
    }

    pub fn new() -> (t: PresenceTracker)
        ensures
            t.sequences() == Map::<PresenceKey, u64>::empty(),
            t.leases() == Map::<PresenceKey, LivePresence>::empty(),
    {
        let t = PresenceTracker { accepted: Vec::new() };
        assert(t.sequences() =~= Map::<PresenceKey, u64>::empty());
        assert(t.leases() =~= Map::<PresenceKey, LivePresence>::empty());
        t
    }

    fn find(&self, space: &SpaceId, endpoint: &EndpointId) -> (r: Option<usize>)
        ensures
            r matches Some(i) ==> i < self.accepted@.len() && self.accepted@[i as int].0 == (*space, *endpoint)
                && lookup(self.accepted@, (*space, *endpoint)) == Some(self.accepted@[i as int].1)
                && forall|j: int| 0 <= j < i ==> #[trigger] self.accepted@[j].0 != (*space, *endpoint),
            r is None ==> lookup(self.accepted@, (*space, *endpoint)) is None,
    {
        let mut i: usize = 0;
        while i < self.accepted.len()
            invariant
                0 <= i <= self.accepted@.len(),
                forall|j: int| 0 <= j < i ==> #[trigger] self.accepted@[j].0 != (*space, *endpoint),
            decreases self.accepted.len() - i,
        {
            let key = &self.accepted[i].0;
            if space_eq(&key.0, space) && bytes32_eq(&key.1.0, &endpoint.0) {
                assert(key.1.0 =~= endpoint.0);
                proof {
                    crate::assoc::lemma_lookup_first(self.accepted@, i as int);
                }
                return Some(i);
            }
            proof {
                if key.1 == *endpoint {
                    assert(key.1.0@ == endpoint.0@);
                }
            }
            i += 1;
        }
        proof {
            crate::assoc::lemma_lookup_none(self.accepted@, (*space, *endpoint));
        }
        None
    }

    /// Validates a lease and records it: its signature and bounds, its
    /// space's membership scope, its endpoint's membership at the current
    /// key epoch in some revision from `REVISION_LAG` behind the current one
    /// up to it, and a sequence above the last one accepted for its space
    /// and endpoint.
    pub fn accept(&mut self, lease: &SignedPresenceLeaseV1, membership: &MembershipState, now_ms: i64, max_skew_ms: i64, now_mono_ms: u64) -> (r: Result<&LivePresence, PresenceError>)
        requires
            membership.wf(),
        ensures
            lease_result(*lease, now_ms, max_skew_ms) is Ok && membership.spec_scope() == membership_scope_spec(lease.body.space)
                && !member_in_window(*membership, lease.body.endpoint)
                ==> r == Err::<&LivePresence, PresenceError>(PresenceError::NotCurrentMember),
            lease_result(*lease, now_ms, max_skew_ms) is Ok && membership.spec_scope() == membership_scope_spec(lease.body.space)
                && member_in_window(*membership, lease.body.endpoint)
                ==> (r == Err::<&LivePresence, PresenceError>(PresenceError::Replay) <==> (old(self).sequences().contains_key((lease.body.space, lease.body.endpoint))
                    && lease.body.sequence <= old(self).sequences()[(lease.body.space, lease.body.endpoint)])),
            r is Err ==> final(self).leases() == old(self).leases(),
            r matches Ok(live) ==> *live == (LivePresence {
                deadline: lease_deadline_spec(now_mono_ms, lease_result(*lease, now_ms, max_skew_ms)->Ok_0),
                sequence: lease.body.sequence,
            }) && final(self).leases() == old(self).leases().insert((lease.body.space, lease.body.endpoint), *live),
            lease_result(*lease, now_ms, max_skew_ms) is Err ==> r == Err::<&LivePresence, PresenceError>(lease_result(*lease, now_ms, max_skew_ms)->Err_0),
            lease_result(*lease, now_ms, max_skew_ms) is Ok && membership.spec_scope() != membership_scope_spec(lease.body.space)
                ==> r == Err::<&LivePresence, PresenceError>(PresenceError::ScopeMismatch),
            r is Err ==> final(self).sequences() == old(self).sequences(),
            r matches Ok(live) ==> live.sequence == lease.body.sequence
                && final(self).sequences() == old(self).sequences().insert((lease.body.space, lease.body.endpoint), lease.body.sequence),
            r is Ok ==> lease_result(*lease, now_ms, max_skew_ms) is Ok
                && membership.spec_scope() == membership_scope_spec(lease.body.space)
                && member_in_window(*membership, lease.body.endpoint)
                && (old(self).sequences().contains_key((lease.body.space, lease.body.endpoint))
                    ==> lease.body.sequence > old(self).sequences()[(lease.body.space, lease.body.endpoint)]),
            r is Err && lease_result(*lease, now_ms, max_skew_ms) is Ok && membership.spec_scope() == membership_scope_spec(lease.body.space)
                && member_in_window(*membership, lease.body.endpoint)
                ==> r == Err::<&LivePresence, PresenceError>(PresenceError::Replay),
    {
        let remaining = match lease.verify_remaining_ms(now_ms, max_skew_ms) {
            Err(e) => return Err(e),
            Ok(ms) => ms,
        };
        let body = &lease.body;
        if !scope_eq(&membership.scope(), &membership_scope(body.space)) {
            return Err(PresenceError::ScopeMismatch);
        }
        if !authorized_in_window(membership, &body.endpoint) {
            return Err(PresenceError::NotCurrentMember);
        }
        let found = self.find(&body.space, &body.endpoint);
        if let Some(i) = found {
            if !(body.sequence > self.accepted[i].1.sequence) {
                return Err(PresenceError::Replay);
            }
        }
        let live = LivePresence { deadline: lease_deadline(now_mono_ms, remaining), sequence: body.sequence };
        let key = (body.space, body.endpoint);
        let ghost before = self.accepted@;
        let idx = match found {
            Some(i) => {
                self.accepted.set(i, (key, live));
                proof {
                    assert forall|q: PresenceKey| #[trigger] lookup(self.accepted@, q) == (if q == key { Some(live) } else { lookup(before, q) }) by {
                        lemma_lookup_update_first(before, i as int, live, q);
                    }
                }
                i
            },
            None => {
                self.accepted.push((key, live));
                proof {
                    assert forall|q: PresenceKey| #[trigger] lookup(self.accepted@, q) == (if q == key { Some(live) } else { lookup(before, q) }) by {
                        lemma_lookup_push(before, key, live, q);
                    }
                }
                self.accepted.len() - 1
            },
        };
        proof {
            assert(self.sequences() =~= old(self).sequences().insert(key, body.sequence));
            assert(self.leases() =~= old(self).leases().insert(key, live));
            assert(self.accepted@[idx as int].1 == live);
        }
        Ok(&self.accepted[idx].1)
    }

    /// The live presence of an endpoint in a space at `now`, if its
    /// deadline has not passed.
    pub fn live(&self, space: SpaceId, endpoint: &EndpointId, now_mono_ms: u64) -> (r: Option<&LivePresence>)
        ensures
            r is Some <==> self.leases().contains_key((space, *endpoint)) && now_mono_ms < self.leases()[(space, *endpoint)].deadline,
            r matches Some(l) ==> *l == self.leases()[(space, *endpoint)],
            r matches Some(l) ==> self.sequences().contains_key((space, *endpoint)) && l.sequence == self.sequences()[(space, *endpoint)],
    {
        match self.find(&space, endpoint) {
            None => None,
            Some(i) => {
                if now_mono_ms < self.accepted[i].1.deadline {
                    Some(&self.accepted[i].1)
                } else {
                    None
                }
            },
        }
    }

    /// Ends the liveness of every lease whose deadline has passed, keeping
    /// its sequence so that it cannot be replayed.
    pub fn expire(&mut self, now_mono_ms: u64)
        ensures
            final(self).sequences() == old(self).sequences(),
            final(self).leases() == old(self).leases().map_values(|l: LivePresence| expired_at(l, now_mono_ms)),
    {
        let mut i: usize = 0;
        while i < self.accepted.len()
            invariant
                0 <= i <= self.accepted@.len(),
                self.accepted@.len() == old(self).accepted@.len(),
                forall|j: int| 0 <= j < self.accepted@.len() ==> #[trigger] self.accepted@[j].0 == old(self).accepted@[j].0
                    && self.accepted@[j].1.sequence == old(self).accepted@[j].1.sequence,
                forall|j: int| 0 <= j < i ==> #[trigger] self.accepted@[j].1 == expired_at(old(self).accepted@[j].1, now_mono_ms),
                forall|j: int| i <= j < self.accepted@.len() ==> #[trigger] self.accepted@[j] == old(self).accepted@[j],
            decreases self.accepted.len() - i,
        {
            let entry = self.accepted[i];
            if !(now_mono_ms < entry.1.deadline) {
                self.accepted.set(i, (entry.0, LivePresence { deadline: now_mono_ms, sequence: entry.1.sequence }));
            }
            i += 1;
        }
        proof {
            lemma_same_keys_same_sequences(self.accepted@, old(self).accepted@);
            assert(self.sequences() =~= old(self).sequences());
            lemma_lookup_mapped(self.accepted@, old(self).accepted@, now_mono_ms);
            assert(self.leases() =~= old(self).leases().map_values(|l: LivePresence| expired_at(l, now_mono_ms)));
        }
    }
}

/// The deadline `lease_deadline` gives.
pub open spec fn lease_deadline_spec(now_ms: u64, remaining_ms: u64) -> u64 {
    if now_ms + remaining_ms > u64::MAX { u64::MAX } else { (now_ms + remaining_ms) as u64 }
}

proof fn lemma_lookup_mapped(a: Seq<(PresenceKey, LivePresence)>, b: Seq<(PresenceKey, LivePresence)>, now: u64)
    requires
        a.len() == b.len(),
        forall|j: int| 0 <= j < a.len() ==> #[trigger] a[j].0 == b[j].0 && a[j].1 == expired_at(b[j].1, now),
    ensures
        forall|k: PresenceKey| #[trigger] lookup(a, k) == (match lookup(b, k) {
            Some(l) => Some(expired_at(l, now)),
            None => None,
        }),
    decreases a.len(),
{
    if a.len() > 0 {
        assert forall|j: int| 0 <= j < a.len() - 1 implies #[trigger] a.drop_first()[j].0 == b.drop_first()[j].0
            && a.drop_first()[j].1 == expired_at(b.drop_first()[j].1, now) by {
            assert(a.drop_first()[j] == a[j + 1] && b.drop_first()[j] == b[j + 1]);
        }
        lemma_lookup_mapped(a.drop_first(), b.drop_first(), now);
        assert(a[0].0 == b[0].0 && a[0].1 == expired_at(b[0].1, now));
        assert forall|k: PresenceKey| #[trigger] lookup(a, k) == (match lookup(b, k) {
            Some(l) => Some(expired_at(l, now)),
            None => None,
        }) by {
            if a[0].0 != k {
                assert(lookup(a, k) == lookup(a.drop_first(), k));
                assert(lookup(b, k) == lookup(b.drop_first(), k));
            }
        }
    }
}

/// The oldest revision of the window in which a lease's endpoint may be a
/// member.
pub open spec fn floor_revision(revision: u64) -> u64 {
    if revision >= REVISION_LAG { (revision - REVISION_LAG) as u64 } else { 0 }
}

/// The endpoint is authorized at the current key epoch in the snapshot of
/// some revision from `REVISION_LAG` behind the current one up to it.
pub open spec fn member_in_window(m: MembershipState, e: EndpointId) -> bool {
    exists|r: int| floor_revision(m.spec_revision()) <= r <= m.spec_revision()
        && #[trigger] member_at_epoch_in(m.snapshot_at(r).members_view(), e, m.spec_key_epoch())
}

/// Whether the endpoint is a member within the revision window.
pub fn authorized_in_window(membership: &MembershipState, endpoint: &EndpointId) -> (r: bool)
    requires
        membership.wf(),
    ensures
        r == member_in_window(*membership, *endpoint),
{
    let revision = membership.revision();
    let epoch = membership.key_epoch();
    let mut q: u64 = if revision >= REVISION_LAG { revision - REVISION_LAG } else { 0 };
    loop
        invariant
            floor_revision(membership.spec_revision()) <= q <= revision,
            revision == membership.spec_revision(),
            epoch == membership.spec_key_epoch(),
            membership.wf(),
            forall|x: int| floor_revision(revision) <= x < q
                ==> !#[trigger] member_at_epoch_in(membership.snapshot_at(x).members_view(), *endpoint, epoch),
        decreases revision - q,
    {
        if membership.authorized_at(endpoint, q, epoch) {
            assert(member_at_epoch_in(membership.snapshot_at(q as int).members_view(), *endpoint, epoch));
            return true;
        }
        if q == revision {
            return false;
        }
        q += 1;
    }
}

proof fn lemma_same_keys_same_sequences(a: Seq<(PresenceKey, LivePresence)>, b: Seq<(PresenceKey, LivePresence)>)
    requires
        a.len() == b.len(),
        forall|j: int| 0 <= j < a.len() ==> #[trigger] a[j].0 == b[j].0 && a[j].1.sequence == b[j].1.sequence,
    ensures
        forall|k: PresenceKey| (#[trigger] lookup(a, k) is Some <==> lookup(b, k) is Some)
            && (lookup(a, k) is Some ==> lookup(a, k)->Some_0.sequence == lookup(b, k)->Some_0.sequence),
    decreases a.len(),
{
    if a.len() > 0 {
        assert forall|j: int| 0 <= j < a.len() - 1 implies #[trigger] a.drop_first()[j].0 == b.drop_first()[j].0
            && a.drop_first()[j].1.sequence == b.drop_first()[j].1.sequence by {
            assert(a.drop_first()[j] == a[j + 1] && b.drop_first()[j] == b[j + 1]);
        }
        lemma_same_keys_same_sequences(a.drop_first(), b.drop_first());
        assert(a[0].0 == b[0].0 && a[0].1.sequence == b[0].1.sequence);
        assert forall|k: PresenceKey| (#[trigger] lookup(a, k) is Some <==> lookup(b, k) is Some)
            && (lookup(a, k) is Some ==> lookup(a, k)->Some_0.sequence == lookup(b, k)->Some_0.sequence) by {
            if a[0].0 != k {
                assert(lookup(a, k) == lookup(a.drop_first(), k));
                assert(lookup(b, k) == lookup(b.drop_first(), k));
            }
        }
    }
}

impl Default for PresenceTracker {
    fn default() -> (t: PresenceTracker)
        ensures
            t.sequences() == Map::<PresenceKey, u64>::empty(),
    {
        PresenceTracker::new()
    }
}

} // verus!
