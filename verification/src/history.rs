//! Bounded history exchange and atomic validation of signed event DAGs.

pub mod memory;
pub mod order;

use vstd::prelude::*;
use vstd::string::StringSliceAdditionalSpecFns;
use crate::admission::{be64, push_be64};
use crate::keys::{
    bytes32_eq, bytes_lt, ed25519_verify, hash_eq, hashes_are_sorted, hashes_sorted, same_elements, sha256,
    sort_dedup_hashes, spec_ed25519_public, spec_ed25519_sign, spec_ed25519_verify, spec_sha256,
    EndpointId, SecretKey, Signature,
};
use crate::membership::{hash_view, member_at_epoch_in, same_authority, MembershipScopeId, MembershipState};
use crate::history::order::canonical_order;
use crate::protocol::event::{
    event_bytes, event_hash, event_verify_result, same_signed_event, EventError, EventUnsignedV1, chunks32_at, copy_hashes, hash_list_at, hash_views, lemma_assoc,
    lemma_chunks32_at_encoding, lemma_flatten_len, push_hashes, read_chunks32, signed_event_bytes, SignedEventV1,
};
use crate::protocol::frame::{KIND_EVENT_V1, MAX_BODY_BYTES};
use crate::protocol::id::{lemma_space_at_encoding, push_space, read_space, space_at, space_bytes, SpaceId};
use crate::protocol::{ChannelId, FlockId, RoostId};
use crate::wire::{
    all_zero, bytes_field, bytes_field_at, flatten, is_all_zero, lemma_bytes_field_at_encoding, lemma_flatten_first,
    lemma_postcard_bounds, lemma_raw_at_encoding, lemma_varint_at_encoding, option32_at, option_bytes, push_bytes_field,
    push_option32, push_raw, push_text, push_varint, raw_at, read_array16, read_array32, read_bytes_field,
    read_option32, read_u32, read_u64, u32_at, u64_at, varint,
};

verus! {

pub const FRAME_HISTORY_REQUEST_V1: u16 = 0x3101;
pub const FRAME_HISTORY_RESPONSE_V1: u16 = 0x3102;
pub const FRAME_HISTORY_ERROR_V1: u16 = 0x31ff;

pub const MAX_RAW_FRAME_BYTES: usize = 8388608;
pub const MAX_BATCH_EVENTS: usize = 512;
pub const MAX_FRONTIER: usize = 64;
pub const MAX_HISTORY_HASHES: usize = 4096;
pub const MAX_HISTORY_PAGE_BYTES: usize = 4194304;
pub const MAX_CIPHERTEXT_BYTES: usize = 1046528;

pub type EventHash = [u8; 32];

#[derive(Clone, Debug, PartialEq, Eq)]
pub struct HistoryRequest {
    pub space: SpaceId,
    pub requester: EndpointId,
    pub challenge: [u8; 32],
    /// Trusted local heads: hints only, never proof.
    pub have: Vec<EventHash>,
    /// Hashes the requester wants.
    pub want: Vec<EventHash>,
    pub cursor: Option<EventHash>,
    pub max_events: u32,
    pub max_bytes: u32,
}

#[derive(Clone, Debug)]
pub struct SignedHistoryRequest {
    pub request: HistoryRequest,
    pub signature: Signature,
}

/// An untrusted description of a response; authoritative only once a
/// batch is validated and committed.
#[derive(Clone, Debug, PartialEq, Eq)]
pub struct HistoryResponseSummary {
    pub space: SpaceId,
    pub advertised_frontier: Vec<EventHash>,
    pub event_count: u32,
    pub encoded_bytes: u32,
    pub next_cursor: Option<EventHash>,
}

#[derive(Clone, Debug)]
pub struct RawBatch {
    pub summary: HistoryResponseSummary,
    /// Canonical encodings of signed events.
    pub events: Vec<Vec<u8>>,
}

#[derive(Clone, Debug)]
pub struct TrustedEvent {
    pub hash: EventHash,
    pub encoded: Vec<u8>,
    pub event: SignedEventV1,
}

#[derive(Clone, Debug, PartialEq, Eq)]
pub struct HistoryHead {
    pub frontier: Vec<EventHash>,
    pub event_count: u64,
    pub commitment: [u8; 32],
}

#[derive(Clone, Debug)]
pub struct VerifiedBatch {
    pub events: Vec<TrustedEvent>,
    pub head: HistoryHead,
}

#[derive(Clone, Debug, PartialEq, Eq)]
pub enum HistoryError {
    TooManyHave,
    TooManyWant,
    InvalidEventLimit,
    InvalidByteLimit,
    HaveNotSorted,
    WantNotSorted,
    ZeroChallenge,
    RequesterMismatch,
    RemoteMismatch,
    InvalidSignature,
    FrontierTooLarge,
    FrontierNotSorted,
    EventCountTooLarge,
    ResponseTooLarge,
    TooManyEvents,
    EventCountMismatch,
    EventTooLarge,
    PayloadTooLarge,
    ByteCountMismatch,
    CountOverflow,
    FrameTooLarge,
    MalformedBatch,
    SpaceMismatch,
    InvalidStoreHead,
    InvalidStoreFrontier,
    MembershipScopeMismatch,
    MalformedEvent,
    UnexpectedKind,
    EventSpaceMismatch,
    TooManyParents,
    CiphertextTooLarge,
    InvalidEvent(crate::protocol::event::EventError),
    UnknownMembershipRevision,
    KeyEpochMismatch,
    SenderNotMember,
    Authentication(String),
    DuplicateHashConflict,
    SequenceConflictInBatch,
    SequenceConflictInStore,
    UnresolvedParent,
    SessionGenesisExists,
    PriorHeadNotLinked,
    SequenceGap,
    MissingSequenceParent,
    Cycle,
    ResultingFrontierTooLarge,
    CommitFailed(String),
    Store(String),
    PageLimitTooLarge,
}

pub open spec fn hash_list(s: Seq<[u8; 32]>) -> Seq<u8> {
    varint(s.len()) + flatten(hash_views(s))
}

pub open spec fn request_result(r: HistoryRequest) -> Result<(), HistoryError> {
    if r.have@.len() > MAX_HISTORY_HASHES {
        Err(HistoryError::TooManyHave)
    } else if r.want@.len() > MAX_HISTORY_HASHES {
        Err(HistoryError::TooManyWant)
    } else if !(r.max_events > 0 && r.max_events <= MAX_BATCH_EVENTS) {
        Err(HistoryError::InvalidEventLimit)
    } else if !(r.max_bytes > 0 && r.max_bytes <= MAX_HISTORY_PAGE_BYTES) {
        Err(HistoryError::InvalidByteLimit)
    } else if !hashes_sorted(r.have@) {
        Err(HistoryError::HaveNotSorted)
    } else if !hashes_sorted(r.want@) {
        Err(HistoryError::WantNotSorted)
    } else if all_zero(r.challenge@) {
        Err(HistoryError::ZeroChallenge)
    } else {
        Ok(())
    }
}

pub open spec fn request_bytes(r: HistoryRequest) -> Seq<u8> {
    space_bytes(r.space) + r.requester.0@ + r.challenge@ + hash_list(r.have@) + hash_list(r.want@)
        + option_bytes(hash_view(r.cursor)) + varint(r.max_events as nat) + varint(r.max_bytes as nat)
}

pub open spec fn request_signing_bytes(r: HistoryRequest) -> Seq<u8> {
    "starling/history/v1/request\0".spec_bytes() + request_bytes(r)
}

pub open spec fn request_verify_result(s: SignedHistoryRequest, remote: EndpointId) -> Result<(), HistoryError> {
    if s.request.requester != remote {
        Err(HistoryError::RemoteMismatch)
    } else if request_result(s.request) is Err {
        request_result(s.request)
    } else if !spec_ed25519_verify(s.request.requester.0@, request_signing_bytes(s.request), s.signature.0@) {
        Err(HistoryError::InvalidSignature)
    } else {
        Ok(())
    }
}

pub open spec fn summary_result(s: HistoryResponseSummary) -> Result<(), HistoryError> {
    if s.advertised_frontier@.len() > MAX_FRONTIER {
        Err(HistoryError::FrontierTooLarge)
    } else if !hashes_sorted(s.advertised_frontier@) {
        Err(HistoryError::FrontierNotSorted)
    } else if s.event_count > MAX_BATCH_EVENTS {
        Err(HistoryError::EventCountTooLarge)
    } else if s.encoded_bytes > MAX_HISTORY_PAGE_BYTES {
        Err(HistoryError::ResponseTooLarge)
    } else {
        Ok(())
    }
}

pub open spec fn byte_views(s: Seq<Vec<u8>>) -> Seq<Seq<u8>> {
    s.map_values(|b: Vec<u8>| b@)
}

/// The sizes of the events checked in order: each must fit in a frame and
/// the running total within a page. The first failure, or the total.
pub open spec fn sizes_result(s: Seq<Seq<u8>>) -> Result<nat, HistoryError>
    decreases s.len(),
{
    if s.len() == 0 {
        Ok(0)
    } else {
        match sizes_result(s.drop_last()) {
            Err(e) => Err(e),
            Ok(total) => if s.last().len() > MAX_BODY_BYTES {
                Err(HistoryError::EventTooLarge)
            } else if total + s.last().len() > MAX_HISTORY_PAGE_BYTES {
                Err(HistoryError::PayloadTooLarge)
            } else {
                Ok(total + s.last().len())
            },
        }
    }
}

pub open spec fn bounds_result(b: RawBatch) -> Result<(), HistoryError> {
    if summary_result(b.summary) is Err {
        summary_result(b.summary)
    } else if b.events@.len() > MAX_BATCH_EVENTS {
        Err(HistoryError::TooManyEvents)
    } else if b.summary.event_count != b.events@.len() {
        Err(HistoryError::EventCountMismatch)
    } else {
        match sizes_result(byte_views(b.events@)) {
            Err(e) => Err(e),
            Ok(total) => if b.summary.encoded_bytes != total {
                Err(HistoryError::ByteCountMismatch)
            } else {
                Ok(())
            },
        }
    }
}

/// The total length of the encodings.
pub open spec fn total_len(s: Seq<Seq<u8>>) -> nat
    decreases s.len(),
{
    if s.len() == 0 {
        0
    } else {
        total_len(s.drop_last()) + s.last().len()
    }
}

/// A prefix is no longer in total than the whole.
pub proof fn lemma_total_len_prefix(s: Seq<Seq<u8>>, k: int)
    requires
        0 <= k <= s.len(),
    ensures
        total_len(s.take(k)) <= total_len(s),
    decreases s.len(),
{
    if k < s.len() {
        assert(s.drop_last().take(k) =~= s.take(k));
        lemma_total_len_prefix(s.drop_last(), k);
    } else {
        assert(s.take(k) =~= s);
    }
}

/// The encodings of the events.
pub open spec fn event_encodings(events: Seq<SignedEventV1>) -> Seq<Seq<u8>> {
    events.map_values(|e: SignedEventV1| signed_event_bytes(e))
}

/// A batch carries the encodings of the events under a summary of the space
/// that advertises no frontier and no cursor and counts them.
pub open spec fn batch_of_events(b: RawBatch, space: SpaceId, events: Seq<SignedEventV1>) -> bool {
    &&& b.summary.space == space
    &&& b.summary.advertised_frontier@.len() == 0
    &&& b.summary.next_cursor is None
    &&& b.summary.event_count == events.len()
    &&& b.summary.encoded_bytes == total_len(event_encodings(events))
    &&& byte_views(b.events@) == event_encodings(events)
}

pub open spec fn summary_bytes(s: HistoryResponseSummary) -> Seq<u8> {
    space_bytes(s.space) + hash_list(s.advertised_frontier@) + varint(s.event_count as nat)
        + varint(s.encoded_bytes as nat) + option_bytes(hash_view(s.next_cursor))
}

pub open spec fn batch_bytes(b: RawBatch) -> Seq<u8> {
    summary_bytes(b.summary) + (varint(b.events@.len()) + flatten(byte_views(b.events@).map_values(|e: Seq<u8>| bytes_field(e))))
}

/// The commitment of a head: SHA-256 over a domain tag, the big-endian
/// event count and frontier length, and the frontier hashes.
pub open spec fn head_commitment_spec(frontier: Seq<[u8; 32]>, event_count: u64) -> Seq<u8> {
    spec_sha256("starling/history/v1/head\0".spec_bytes() + be64(event_count) + be64(frontier.len() as u64)
        + flatten(hash_views(frontier)))
}

/// A head is valid when its commitment matches and its frontier is bounded
/// and sorted.
pub open spec fn head_valid(h: HistoryHead) -> bool {
    &&& h.commitment@ == head_commitment_spec(h.frontier@, h.event_count)
    &&& h.frontier@.len() <= MAX_FRONTIER
    &&& hashes_sorted(h.frontier@)
}

fn push_hash_list_be(out: &mut Vec<u8>, items: &Vec<EventHash>)
    ensures
        final(out)@ == old(out)@ + flatten(hash_views(items@)),
{
    let ghost views = hash_views(items@);
    let mut i: usize = 0;
    while i < items.len()
        invariant
            0 <= i <= items@.len(),
            views == hash_views(items@),
            out@ == old(out)@ + flatten(views.take(i as int)),
        decreases items.len() - i,
    {
        push_raw(out, &items[i]);
        assert(views.take(i + 1).drop_last() =~= views.take(i as int));
        i += 1;
    }
    assert(views.take(items@.len() as int) =~= views);
}

fn head_commitment(frontier: &Vec<EventHash>, event_count: u64) -> (c: [u8; 32])
    ensures
        c@ == head_commitment_spec(frontier@, event_count),
{
    let mut buf: Vec<u8> = Vec::new();
    push_text(&mut buf, "starling/history/v1/head\0");
    push_be64(&mut buf, event_count);
    push_be64(&mut buf, frontier.len() as u64);
    push_hash_list_be(&mut buf, frontier);
    sha256(buf.as_slice())
}

impl HistoryRequest {
    pub fn validate(&self) -> (r: Result<(), HistoryError>)
        ensures
            r == request_result(*self),
    {
        if self.have.len() > MAX_HISTORY_HASHES {
            return Err(HistoryError::TooManyHave);
        }
        if self.want.len() > MAX_HISTORY_HASHES {
            return Err(HistoryError::TooManyWant);
        }
        if !(self.max_events > 0 && self.max_events as usize <= MAX_BATCH_EVENTS) {
            return Err(HistoryError::InvalidEventLimit);
        }
        if !(self.max_bytes > 0 && self.max_bytes as usize <= MAX_HISTORY_PAGE_BYTES) {
            return Err(HistoryError::InvalidByteLimit);
        }
        if !hashes_are_sorted(self.have.as_slice()) {
            return Err(HistoryError::HaveNotSorted);
        }
        if !hashes_are_sorted(self.want.as_slice()) {
            return Err(HistoryError::WantNotSorted);
        }
        if is_all_zero(&self.challenge) {
            return Err(HistoryError::ZeroChallenge);
        }
        Ok(())
    }

    fn signing_bytes(&self) -> (r: Result<Vec<u8>, HistoryError>)
        ensures
            match r {
                Ok(b) => request_result(*self) is Ok && b@ == request_signing_bytes(*self),
                Err(e) => request_result(*self) == Err::<(), HistoryError>(e),
            },
    {
        let v = self.validate();
        match v {
            Err(e) => Err(e),
            Ok(()) => {
                let mut out: Vec<u8> = Vec::new();
                push_text(&mut out, "starling/history/v1/request\0");
                push_space(&mut out, &self.space);
                push_raw(&mut out, &self.requester.0);
                push_raw(&mut out, &self.challenge);
                push_hashes(&mut out, &self.have);
                push_hashes(&mut out, &self.want);
                push_option32(&mut out, &self.cursor);
                push_varint(&mut out, self.max_events as u64);
                push_varint(&mut out, self.max_bytes as u64);
                assert(out@ =~= request_signing_bytes(*self));
                Ok(out)
            },
        }
    }

    /// Signs the request with the requester's key.
    pub fn sign(self, secret: &SecretKey) -> (r: Result<SignedHistoryRequest, HistoryError>)
        ensures
            self.requester.0@ != spec_ed25519_public(secret.bytes()) ==> r == Err::<SignedHistoryRequest, HistoryError>(HistoryError::RequesterMismatch),
            self.requester.0@ == spec_ed25519_public(secret.bytes()) && request_result(self) is Err
                ==> r == Err::<SignedHistoryRequest, HistoryError>(request_result(self)->Err_0),
            self.requester.0@ == spec_ed25519_public(secret.bytes()) && request_result(self) is Ok ==> r is Ok,
            r matches Ok(s) ==> (s.request == self && s.signature.0@ == spec_ed25519_sign(secret.bytes(), request_signing_bytes(self))
                && request_verify_result(s, self.requester) is Ok),
    {
        let public = secret.public();
        if !bytes32_eq(&self.requester.0, &public.0) {
            return Err(HistoryError::RequesterMismatch);
        }
        let bytes = match self.signing_bytes() {
            Err(e) => return Err(e),
            Ok(b) => b,
        };
        let signature = secret.sign(bytes.as_slice());
        Ok(SignedHistoryRequest { request: self, signature })
    }
}

impl SignedHistoryRequest {
    /// Checks that the request comes from the connected peer `remote` and
    /// carries its valid signature.
    pub fn verify(&self, remote: &EndpointId) -> (r: Result<(), HistoryError>)
        ensures
            r == request_verify_result(*self, *remote),
    {
        if !bytes32_eq(&self.request.requester.0, &remote.0) {
            proof {
                if self.request.requester == *remote {
                    assert(self.request.requester.0@ == remote.0@);
                }
            }
            return Err(HistoryError::RemoteMismatch);
        }
        assert(self.request.requester.0 =~= remote.0);
        let bytes = match self.request.signing_bytes() {
            Err(e) => return Err(e),
            Ok(b) => b,
        };
        if !ed25519_verify(&self.request.requester, bytes.as_slice(), &self.signature) {
            return Err(HistoryError::InvalidSignature);
        }
        Ok(())
    }
}

impl HistoryResponseSummary {
    pub fn validate_untrusted(&self) -> (r: Result<(), HistoryError>)
        ensures
            r == summary_result(*self),
    {
        if self.advertised_frontier.len() > MAX_FRONTIER {
            return Err(HistoryError::FrontierTooLarge);
        }
        if !hashes_are_sorted(self.advertised_frontier.as_slice()) {
            return Err(HistoryError::FrontierNotSorted);
        }
        if self.event_count as usize > MAX_BATCH_EVENTS {
            return Err(HistoryError::EventCountTooLarge);
        }
        if self.encoded_bytes as usize > MAX_HISTORY_PAGE_BYTES {
            return Err(HistoryError::ResponseTooLarge);
        }
        Ok(())
    }

    fn push_bytes(&self, out: &mut Vec<u8>)
        ensures
            final(out)@ == old(out)@ + summary_bytes(*self),
    {
        push_space(out, &self.space);
        push_hashes(out, &self.advertised_frontier);
        push_varint(out, self.event_count as u64);
        push_varint(out, self.encoded_bytes as u64);
        push_option32(out, &self.next_cursor);
        assert(final(out)@ =~= old(out)@ + summary_bytes(*self));
    }
}

impl HistoryHead {
    /// A head over the frontier, sorted and each hash once, and the event
    /// count, with its commitment.
    pub fn new(frontier: Vec<EventHash>, event_count: u64) -> (r: Result<HistoryHead, HistoryError>)
        ensures
            match r {
                Ok(h) => head_valid(h) && same_elements(h.frontier@, frontier@) && h.event_count == event_count,
                Err(e) => e == HistoryError::FrontierTooLarge && exists|s: Seq<[u8; 32]>|
                    hashes_sorted(s) && #[trigger] same_elements(s, frontier@) && s.len() > MAX_FRONTIER,
            },
            r is Err <==> frontier@.to_set().len() > MAX_FRONTIER,
    {
        let sorted = sort_dedup_hashes(&frontier);
        proof {
            lemma_sorted_no_duplicates(sorted@);
            sorted@.unique_seq_to_set();
            assert(sorted@.to_set() =~= frontier@.to_set());
        }
        if sorted.len() > MAX_FRONTIER {
            assert(same_elements(sorted@, frontier@));
            return Err(HistoryError::FrontierTooLarge);
        }
        let commitment = head_commitment(&sorted, event_count);
        Ok(HistoryHead { frontier: sorted, event_count, commitment })
    }

    /// The head of an empty history.
    pub fn empty() -> (h: HistoryHead)
        ensures
            head_valid(h),
            h.frontier@.len() == 0,
            h.event_count == 0,
    {
        let frontier: Vec<EventHash> = Vec::new();
        let commitment = head_commitment(&frontier, 0);
        HistoryHead { frontier, event_count: 0, commitment }
    }
}

/// `n` consecutive length-prefixed byte strings at `pos`.
pub open spec fn fields_at(s: Seq<u8>, pos: int, n: nat) -> Option<(Seq<Seq<u8>>, int)>
    decreases n,
{
    if n == 0 {
        Some((Seq::empty(), pos))
    } else {
        match bytes_field_at(s, pos) {
            None => None,
            Some((b, p)) => match fields_at(s, p, (n - 1) as nat) {
                None => None,
                Some((rest, q)) => Some((seq![b] + rest, q)),
            },
        }
    }
}

/// What a summary read at `pos` holds: its space's canonical bytes, its
/// frontier, its counts and its cursor.
pub type SummaryModel = (Seq<u8>, Seq<Seq<u8>>, nat, nat, Option<Seq<u8>>);

pub open spec fn summary_at(s: Seq<u8>, pos: int) -> Option<(SummaryModel, int)> {
    match space_at(s, pos) {
        None => None,
        Some((space, p1)) => match hash_list_at(s, p1) {
            None => None,
            Some((frontier, p2)) => match u32_at(s, p2) {
                None => None,
                Some((count, p3)) => match u32_at(s, p3) {
                    None => None,
                    Some((bytes, p4)) => match option32_at(s, p4) {
                        None => None,
                        Some((cursor, p5)) => Some(((space, frontier, count, bytes, cursor), p5)),
                    },
                },
            },
        },
    }
}

/// What reading a batch from the start of `s` gives; bytes after it are
/// ignored.
pub open spec fn batch_at(s: Seq<u8>) -> Option<(SummaryModel, Seq<Seq<u8>>)> {
    match summary_at(s, 0) {
        None => None,
        Some((summary, p1)) => match u64_at(s, p1) {
            None => None,
            Some((n, p2)) => match fields_at(s, p2, n) {
                None => None,
                Some((events, _)) => Some((summary, events)),
            },
        },
    }
}

pub open spec fn summary_model(s: HistoryResponseSummary) -> SummaryModel {
    (space_bytes(s.space), hash_views(s.advertised_frontier@), s.event_count as nat, s.encoded_bytes as nat, hash_view(s.next_cursor))
}

/// What decoding a batch frame gives.
pub open spec fn decode_result(s: Seq<u8>) -> Result<(SummaryModel, Seq<Seq<u8>>), HistoryError> {
    if s.len() > MAX_RAW_FRAME_BYTES {
        Err(HistoryError::FrameTooLarge)
    } else {
        match batch_at(s) {
            None => Err(HistoryError::MalformedBatch),
            Some(m) => Ok(m),
        }
    }
}

fn read_fields(s: &[u8], pos: usize, n: u64) -> (r: Option<(Vec<Vec<u8>>, usize)>)
    ensures
        match fields_at(s@, pos as int, n as nat) {
            None => r is None,
            Some((c, p)) => r matches Some((x, q)) && byte_views(x@) == c && q == p,
        },
{
    let mut out: Vec<Vec<u8>> = Vec::new();
    let mut at = pos;
    let mut i: u64 = 0;
    while i < n
        invariant
            0 <= i <= n,
            fields_at(s@, pos as int, n as nat) == match fields_at(s@, at as int, (n - i) as nat) {
                None => None,
                Some((c, q)) => Some((byte_views(out@) + c, q)),
            },
        decreases n - i,
    {
        match read_bytes_field(s, at) {
            None => {
                return None;
            },
            Some((b, q)) => {
                let ghost before = out@;
                let ghost bv = b@;
                out.push(b);
                assert(byte_views(out@) =~= byte_views(before) + seq![bv]);
                proof {
                    let rest = fields_at(s@, q as int, (n - i - 1) as nat);
                    if let Some((c, q2)) = rest {
                        assert(byte_views(before) + (seq![bv] + c) =~= byte_views(out@) + c);
                    }
                }
                at = q;
                i += 1;
            },
        }
    }
    assert(byte_views(out@) + Seq::<Seq<u8>>::empty() =~= byte_views(out@));
    Some((out, at))
}

fn read_summary(s: &[u8], pos: usize) -> (r: Option<(HistoryResponseSummary, usize)>)
    ensures
        match summary_at(s@, pos as int) {
            None => r is None,
            Some((m, p)) => r matches Some((x, q)) && summary_model(x) == m && q == p,
        },
{
    let (space, p1) = match read_space(s, pos) {
        None => return None,
        Some(v) => v,
    };
    let (n, p1b) = match read_u64(s, p1) {
        None => return None,
        Some(v) => v,
    };
    let (frontier, p2) = match read_chunks32(s, p1b, n) {
        None => return None,
        Some(v) => v,
    };
    let (count, p3) = match read_u32(s, p2) {
        None => return None,
        Some(v) => v,
    };
    let (bytes, p4) = match read_u32(s, p3) {
        None => return None,
        Some(v) => v,
    };
    let (cursor, p5) = match read_option32(s, p4) {
        None => return None,
        Some(v) => v,
    };
    Some((HistoryResponseSummary { space, advertised_frontier: frontier, event_count: count, encoded_bytes: bytes, next_cursor: cursor }, p5))
}

impl RawBatch {
    fn validate_bounds(&self) -> (r: Result<(), HistoryError>)
        ensures
            r == bounds_result(*self),
            r matches Err(e) ==> !encoding_refusal(e) && bounds_refusal(e),
    {
        let v = self.summary.validate_untrusted();
        if v.is_err() {
            return v;
        }
        if self.events.len() > MAX_BATCH_EVENTS {
            return Err(HistoryError::TooManyEvents);
        }
        if self.summary.event_count as usize != self.events.len() {
            return Err(HistoryError::EventCountMismatch);
        }
        let ghost views = byte_views(self.events@);
        let mut total: usize = 0;
        let mut i: usize = 0;
        while i < self.events.len()
            invariant
                0 <= i <= self.events@.len(),
                views == byte_views(self.events@),
                sizes_result(views.take(i as int)) == Ok::<nat, HistoryError>(total as nat),
                total <= MAX_HISTORY_PAGE_BYTES,
                bounds_result(*self) == match sizes_result(views) {
                    Err(e) => Err(e),
                    Ok(t) => if self.summary.encoded_bytes != t {
                        Err(HistoryError::ByteCountMismatch)
                    } else {
                        Ok(())
                    },
                },
            decreases self.events.len() - i,
        {
            let n = self.events[i].len();
            proof {
                assert(views.take(i + 1).drop_last() =~= views.take(i as int));
                assert(views.take(i + 1).last() == self.events@[i as int]@);
            }
            if n > MAX_BODY_BYTES {
                proof {
                    lemma_sizes_prefix_err(views, i + 1);
                }
                return Err(HistoryError::EventTooLarge);
            }
            if total + n > MAX_HISTORY_PAGE_BYTES {
                proof {
                    lemma_sizes_prefix_err(views, i + 1);
                }
                return Err(HistoryError::PayloadTooLarge);
            }
            total = total + n;
            i += 1;
        }
        assert(views.take(views.len() as int) =~= views);
        if self.summary.encoded_bytes as usize != total {
            return Err(HistoryError::ByteCountMismatch);
        }
        Ok(())
    }

    /// A batch, once its bounds hold.
    pub fn new(summary: HistoryResponseSummary, events: Vec<Vec<u8>>) -> (r: Result<RawBatch, HistoryError>)
        ensures
            match r {
                Ok(b) => b.summary == summary && b.events == events && bounds_result(b) is Ok,
                Err(e) => bounds_result(RawBatch { summary, events }) == Err::<(), HistoryError>(e),
            },
    {
        let batch = RawBatch { summary, events };
        match batch.validate_bounds() {
            Err(e) => Err(e),
            Ok(()) => Ok(batch),
        }
    }

    /// A batch carrying the canonical encodings of `events`, with a
    /// summary that advertises no frontier and no cursor.
    pub fn from_events(space: SpaceId, events: &Vec<SignedEventV1>) -> (r: Result<RawBatch, HistoryError>)
        ensures
            r matches Ok(b) ==> (b.summary.space == space && b.summary.advertised_frontier@.len() == 0
                && b.summary.next_cursor is None && bounds_result(b) is Ok
                && byte_views(b.events@) == events@.map_values(|e: SignedEventV1| signed_event_bytes(e))),
            events@.len() > u32::MAX || total_len(event_encodings(events@)) > u32::MAX
                ==> r == Err::<RawBatch, HistoryError>(HistoryError::CountOverflow),
            events@.len() <= u32::MAX && total_len(event_encodings(events@)) <= u32::MAX ==> match r {
                Ok(b) => batch_of_events(b, space, events@),
                Err(e) => exists|b: RawBatch| #[trigger] batch_of_events(b, space, events@)
                    && bounds_result(b) == Err::<(), HistoryError>(e),
            },
    {
        let mut encoded: Vec<Vec<u8>> = Vec::new();
        let mut total: u64 = 0;
        let mut i: usize = 0;
        while i < events.len()
            invariant
                0 <= i <= events@.len(),
                byte_views(encoded@) == events@.take(i as int).map_values(|e: SignedEventV1| signed_event_bytes(e)),
            decreases events.len() - i,
        {
            let b = events[i].encode();
            let ghost bv = b@;
            let ghost before = encoded@;
            encoded.push(b);
            proof {
                assert(byte_views(encoded@) =~= byte_views(before).push(bv));
                assert(events@.take(i + 1).map_values(|e: SignedEventV1| signed_event_bytes(e))
                    =~= events@.take(i as int).map_values(|e: SignedEventV1| signed_event_bytes(e)).push(signed_event_bytes(events@[i as int])));
            }
            i += 1;
        }
        assert(events@.take(events@.len() as int) =~= events@);
        assert(byte_views(encoded@) == event_encodings(events@));
        assert(byte_views(encoded@).take(0) =~= Seq::<Seq<u8>>::empty());
        let mut j: usize = 0;
        while j < encoded.len()
            invariant
                0 <= j <= encoded@.len(),
                byte_views(encoded@) == event_encodings(events@),
                total == total_len(byte_views(encoded@).take(j as int)),
            decreases encoded.len() - j,
        {
            let n = encoded[j].len() as u64;
            proof {
                let bv = byte_views(encoded@);
                assert(bv.take(j + 1).drop_last() =~= bv.take(j as int));
                assert(bv[j as int] == encoded@[j as int]@);
                assert(bv.take(j + 1).last() == bv[j as int]);
                assert(total_len(bv.take(j + 1)) == total + n);
                lemma_total_len_prefix(bv, j + 1);
            }
            if total > u64::MAX - n {
                proof {
                    lemma_total_len_prefix(byte_views(encoded@), j + 1);
                }
                return Err(HistoryError::CountOverflow);
            }
            total = total + n;
            j += 1;
        }
        assert(byte_views(encoded@).take(j as int) =~= byte_views(encoded@));
        if encoded.len() > u32::MAX as usize || total > u32::MAX as u64 {
            return Err(HistoryError::CountOverflow);
        }
        let summary = HistoryResponseSummary {
            space,
            advertised_frontier: Vec::new(),
            event_count: encoded.len() as u32,
            encoded_bytes: total as u32,
            next_cursor: None,
        };
        let ghost gb = RawBatch { summary: summary, events: encoded };
        proof {
            assert(total == total_len(event_encodings(events@)));
            assert(batch_of_events(gb, space, events@));
        }
        RawBatch::new(summary, encoded)
    }

    /// Reads a batch frame: refuses an oversized frame before reading it,
    /// then checks the bounds of what it read.
    pub fn decode(bytes: &[u8]) -> (r: Result<RawBatch, HistoryError>)
        ensures
            decode_result(bytes@) is Err ==> r == Err::<RawBatch, HistoryError>(decode_result(bytes@)->Err_0),
            decode_result(bytes@) matches Ok((m, events)) ==> match r {
                Ok(b) => summary_model(b.summary) == m && byte_views(b.events@) == events && bounds_result(b) is Ok,
                Err(e) => exists|b: RawBatch| summary_model(b.summary) == m && byte_views(b.events@) == events
                    && #[trigger] bounds_result(b) == Err::<(), HistoryError>(e),
            },
    {
        if bytes.len() > MAX_RAW_FRAME_BYTES {
            return Err(HistoryError::FrameTooLarge);
        }
        let (summary, p1) = match read_summary(bytes, 0) {
            None => return Err(HistoryError::MalformedBatch),
            Some(v) => v,
        };
        let (n, p2) = match read_u64(bytes, p1) {
            None => return Err(HistoryError::MalformedBatch),
            Some(v) => v,
        };
        let (events, _) = match read_fields(bytes, p2, n) {
            None => return Err(HistoryError::MalformedBatch),
            Some(v) => v,
        };
        let batch = RawBatch { summary, events };
        match batch.validate_bounds() {
            Err(e) => Err(e),
            Ok(()) => Ok(batch),
        }
    }

    /// The batch frame: the summary, then each event length-prefixed.
    pub fn encode(&self) -> (r: Result<Vec<u8>, HistoryError>)
        ensures
            bounds_result(*self) is Err ==> r == Err::<Vec<u8>, HistoryError>(bounds_result(*self)->Err_0),
            bounds_result(*self) is Ok && batch_bytes(*self).len() > MAX_RAW_FRAME_BYTES ==> r == Err::<Vec<u8>, HistoryError>(HistoryError::FrameTooLarge),
            bounds_result(*self) is Ok && batch_bytes(*self).len() <= MAX_RAW_FRAME_BYTES ==> (r matches Ok(b) && b@ == batch_bytes(*self)),
    {
        if let Err(e) = self.validate_bounds() {
            return Err(e);
        }
        let mut out: Vec<u8> = Vec::new();
        self.summary.push_bytes(&mut out);
        let ghost head = out@;
        let ghost views = byte_views(self.events@).map_values(|e: Seq<u8>| bytes_field(e));
        push_varint(&mut out, self.events.len() as u64);
        let ghost start = out@;
        let mut i: usize = 0;
        while i < self.events.len()
            invariant
                0 <= i <= self.events@.len(),
                views == byte_views(self.events@).map_values(|e: Seq<u8>| bytes_field(e)),
                out@ == start + flatten(views.take(i as int)),
            decreases self.events.len() - i,
        {
            push_bytes_field(&mut out, self.events[i].as_slice());
            assert(views.take(i + 1).drop_last() =~= views.take(i as int));
            i += 1;
        }
        assert(views.take(views.len() as int) =~= views);
        assert(out@ =~= batch_bytes(*self));
        if out.len() > MAX_RAW_FRAME_BYTES {
            return Err(HistoryError::FrameTooLarge);
        }
        Ok(out)
    }
}

proof fn lemma_fields_at_encoding(pre: Seq<u8>, fs: Seq<Seq<u8>>, rest: Seq<u8>)
    requires
        forall|i: int| 0 <= i < fs.len() ==> (#[trigger] fs[i]).len() < 0x1_0000_0000_0000_0000,
    ensures
        fields_at(pre + flatten(fs.map_values(|e: Seq<u8>| bytes_field(e))) + rest, pre.len() as int, fs.len()) matches Some((g, q))
            && g == fs && q == pre.len() + flatten(fs.map_values(|e: Seq<u8>| bytes_field(e))).len(),
    decreases fs.len(),
{
    let v = fs.map_values(|e: Seq<u8>| bytes_field(e));
    if fs.len() == 0 {
        assert(v =~= Seq::<Seq<u8>>::empty());
        assert(fs =~= Seq::<Seq<u8>>::empty());
    } else {
        lemma_flatten_first(v);
        let tail = fs.drop_first();
        let vt = tail.map_values(|e: Seq<u8>| bytes_field(e));
        assert(v.drop_first() =~= vt);
        let ft = flatten(vt);
        assert(pre + flatten(v) + rest =~= pre + bytes_field(fs[0]) + (ft + rest));
        lemma_bytes_field_at_encoding(pre, fs[0], ft + rest);
        assert(pre + flatten(v) + rest =~= (pre + bytes_field(fs[0])) + ft + rest);
        lemma_fields_at_encoding(pre + bytes_field(fs[0]), tail, rest);
        assert(seq![fs[0]] + tail =~= fs);
    }
}

proof fn lemma_option32_at_encoding(pre: Seq<u8>, o: Option<[u8; 32]>, rest: Seq<u8>)
    ensures
        option32_at(pre + option_bytes(hash_view(o)) + rest, pre.len() as int) == Some(
            (hash_view(o), (pre.len() + option_bytes(hash_view(o)).len()) as int),
        ),
{
    let s = pre + option_bytes(hash_view(o)) + rest;
    match o {
        None => {
            assert(s[pre.len() as int] == 0u8);
        },
        Some(b) => {
            assert(s[pre.len() as int] == 1u8);
            assert(s =~= pre.push(1u8) + b@ + rest);
            lemma_raw_at_encoding(pre.push(1u8), b@, rest);
        },
    }
}

/// Decoding a batch's frame gives back its summary and its events.
pub proof fn lemma_batch_round_trip(b: RawBatch)
    requires
        batch_bytes(b).len() <= MAX_RAW_FRAME_BYTES,
    ensures
        decode_result(batch_bytes(b)) == Ok::<(SummaryModel, Seq<Seq<u8>>), HistoryError>(
            (summary_model(b.summary), byte_views(b.events@)),
        ),
{
    lemma_postcard_bounds();
    let sm = b.summary;
    let sb = space_bytes(sm.space);
    let fr = sm.advertised_frontier@;
    let v1 = varint(fr.len());
    let fl = flatten(hash_views(fr));
    let c = varint(sm.event_count as nat);
    let n = varint(sm.encoded_bytes as nat);
    let ob = option_bytes(hash_view(sm.next_cursor));
    let fs = byte_views(b.events@);
    let ve = varint(b.events@.len());
    let fe = flatten(fs.map_values(|e: Seq<u8>| bytes_field(e)));
    let e0 = Seq::<u8>::empty();
    let r8 = e0;
    let r7 = fe + r8;
    let r6 = ve + r7;
    let r5 = ob + r6;
    let r4 = n + r5;
    let r3 = c + r4;
    let r2 = fl + r3;
    let r1 = v1 + r2;
    let q1 = sb;
    let q2 = q1 + v1;
    let q3 = q2 + fl;
    let q4 = q3 + c;
    let q5 = q4 + n;
    let q6 = q5 + ob;
    let q7 = q6 + ve;
    let s = batch_bytes(b);
    assert(sm.advertised_frontier.len() == fr.len());
    assert(b.events.len() == b.events@.len());
    assert(s =~= q7 + fe + r8);
    lemma_assoc(q6, ve, r7);
    lemma_assoc(q5, ob, r6);
    lemma_assoc(q4, n, r5);
    lemma_assoc(q3, c, r4);
    lemma_assoc(q2, fl, r3);
    lemma_assoc(q1, v1, r2);
    assert(e0 + sb + r1 =~= q1 + r1);
    lemma_space_at_encoding(e0, sm.space, r1);
    lemma_varint_at_encoding(q1, fr.len(), r2, 10, 1);
    lemma_chunks32_at_encoding(q2, fr, r3);
    lemma_flatten_len(fr);
    lemma_varint_at_encoding(q3, sm.event_count as nat, r4, 5, 15);
    lemma_varint_at_encoding(q4, sm.encoded_bytes as nat, r5, 5, 15);
    lemma_option32_at_encoding(q5, sm.next_cursor, r6);
    lemma_varint_at_encoding(q6, b.events@.len(), r7, 10, 1);
    assert forall|i: int| 0 <= i < fs.len() implies (#[trigger] fs[i]).len() < 0x1_0000_0000_0000_0000 by {
        assert(b.events@[i].len() == b.events@[i]@.len());
    }
    lemma_fields_at_encoding(q7, fs, r8);
}

pub proof fn lemma_sizes_prefix_err(s: Seq<Seq<u8>>, k: int)
    requires
        0 <= k <= s.len(),
        sizes_result(s.take(k)) is Err,
    ensures
        sizes_result(s) == sizes_result(s.take(k)),
    decreases s.len(),
{
    if s.len() == k {
        assert(s.take(k) =~= s);
    } else {
        assert(s.drop_last().take(k) =~= s.take(k));
        lemma_sizes_prefix_err(s.drop_last(), k);
    }
}

/// A store of trusted events, per space: its heads, events, session
/// sequences and per-sender heads. Implementations commit atomically: a
/// failed commit leaves the store as it was.
pub trait TrustedStore: Sized {
    /// The frontier and event count of a space's head.
    spec fn head_of(&self, space: SpaceId) -> (Seq<[u8; 32]>, u64);

    /// Whether the space holds an event with this hash.
    spec fn holds(&self, space: SpaceId, hash: [u8; 32]) -> bool;

    /// The stored encoding of an event the space holds.
    spec fn encoded_of(&self, space: SpaceId, hash: [u8; 32]) -> Seq<u8>;

    /// The parents of an event the space holds.
    spec fn parents_of(&self, space: SpaceId, hash: [u8; 32]) -> Seq<[u8; 32]>;

    /// The event at a sender's session position.
    spec fn sequence_of(&self, space: SpaceId, sender: EndpointId, session: [u8; 16], sequence: u64) -> Option<[u8; 32]>;

    /// The latest accepted event of a sender.
    spec fn sender_head_of(&self, space: SpaceId, sender: EndpointId) -> Option<[u8; 32]>;

    /// The commitment a space's head carries.
    spec fn head_commitment_of(&self, space: SpaceId) -> Seq<u8>;

    /// Whether every read of the store succeeds.
    spec fn reliable(&self) -> bool;

    /// Whether the store's authentication accepts an event, by its
    /// canonical bytes.
    spec fn accepts(&self, encoded: Seq<u8>) -> bool;

    /// Whether a commit of `events` that replaces the head `expected` by
    /// `new_head` (each as frontier, count and commitment) goes through.
    spec fn commit_accepts(
        &self,
        space: SpaceId,
        expected: (Seq<[u8; 32]>, u64, Seq<u8>),
        events: Seq<TrustedEvent>,
        new_head: (Seq<[u8; 32]>, u64, Seq<u8>),
    ) -> bool;

    fn head(&self, space: &SpaceId) -> (r: Result<HistoryHead, String>)
        ensures
            r matches Ok(h) ==> (h.frontier@, h.event_count) == self.head_of(*space),
            r matches Ok(h) ==> h.commitment@ == self.head_commitment_of(*space),
            self.reliable() ==> r is Ok;

    fn event(&self, space: &SpaceId, hash: &EventHash) -> (r: Result<Option<TrustedEvent>, String>)
        ensures
            r matches Ok(o) ==> (o is Some <==> self.holds(*space, *hash)),
            r matches Ok(Some(t)) ==> t.hash == *hash && t.encoded@ == self.encoded_of(*space, *hash)
                && t.event.event.parents@ == self.parents_of(*space, *hash),
            self.reliable() ==> r is Ok;

    fn sequence_hash(&self, space: &SpaceId, sender: &EndpointId, session: &[u8; 16], sequence: u64) -> (r: Result<Option<EventHash>, String>)
        ensures
            r matches Ok(o) ==> o == self.sequence_of(*space, *sender, *session, sequence),
            self.reliable() ==> r is Ok;

    fn sender_head(&self, space: &SpaceId, sender: &EndpointId) -> (r: Result<Option<EventHash>, String>)
        ensures
            r matches Ok(o) ==> o == self.sender_head_of(*space, *sender),
            self.reliable() ==> r is Ok;

    /// The membership chain that governs a space.
    spec fn membership_of(&self, space: SpaceId) -> MembershipState;

    fn membership(&self, space: &SpaceId) -> (r: Result<MembershipState, String>)
        ensures
            r matches Ok(m) ==> same_authority(m, self.membership_of(*space)),
            self.reliable() ==> r is Ok;

    /// Authenticates an event's ciphertext when keys are at hand; a store
    /// working on signatures alone accepts every event.
    fn authenticate(&self, event: &SignedEventV1) -> (r: Result<(), String>)
        ensures
            r is Ok <==> self.accepts(signed_event_bytes(*event));

    /// Persists all events and replaces the head `expected` with
    /// `new_head`, or changes nothing.
    fn commit(&mut self, space: &SpaceId, expected: &HistoryHead, events: &[TrustedEvent], new_head: &HistoryHead) -> (r: Result<(), String>)
        ensures
            r is Err ==> *final(self) == *old(self),
            r is Ok <==> old(self).commit_accepts(*space, (expected.frontier@, expected.event_count, expected.commitment@), events@,
                (new_head.frontier@, new_head.event_count, new_head.commitment@)),
            r is Ok ==> final(self).head_commitment_of(*space) == new_head.commitment@,
            r is Ok ==> old(self).head_of(*space) == (expected.frontier@, expected.event_count),
            r is Ok ==> final(self).head_of(*space) == (new_head.frontier@, new_head.event_count),
            r is Ok ==> forall|h: [u8; 32]| #[trigger] final(self).holds(*space, h)
                <==> (old(self).holds(*space, h) || exists|i: int| 0 <= i < events@.len() && events@[i].hash == h),
            r is Ok ==> forall|i: int| 0 <= i < events@.len()
                ==> final(self).encoded_of(*space, #[trigger] events@[i].hash) == events@[i].encoded@
                    && final(self).parents_of(*space, events@[i].hash) == events@[i].event.event.parents@,
            r is Ok ==> forall|h: [u8; 32]| #[trigger] old(self).holds(*space, h)
                ==> final(self).encoded_of(*space, h) == old(self).encoded_of(*space, h)
                    && final(self).parents_of(*space, h) == old(self).parents_of(*space, h);
}

pub open spec fn incoming_hashes(s: Seq<TrustedEvent>) -> Seq<[u8; 32]> {
    s.map_values(|t: TrustedEvent| t.hash)
}

/// Whether some incoming event has this hash.
pub open spec fn in_incoming(s: Seq<TrustedEvent>, h: [u8; 32]) -> bool {
    exists|i: int| 0 <= i < s.len() && #[trigger] s[i].hash == h
}

/// The hash of the first incoming event at a sender's session position.
pub open spec fn incoming_position(s: Seq<TrustedEvent>, sender: EndpointId, session: [u8; 16], sequence: u64) -> Option<[u8; 32]>
    decreases s.len(),
{
    if s.len() == 0 {
        None
    } else if s[0].event.event.sender == sender && s[0].event.event.session_id == session && s[0].event.event.sequence == sequence {
        Some(s[0].hash)
    } else {
        incoming_position(s.drop_first(), sender, session, sequence)
    }
}

/// The links every incoming event must have: each parent resolves, a new
/// session links the sender's prior head and sequence zero is fresh, and a
/// later event links its immediate predecessor.
pub open spec fn links_hold<S: TrustedStore>(store: S, space: SpaceId, incoming: Seq<TrustedEvent>) -> bool {
    forall|i: int| 0 <= i < incoming.len() ==> #[trigger] event_links_hold(store, space, incoming, incoming[i])
}

pub open spec fn event_links_hold<S: TrustedStore>(store: S, space: SpaceId, incoming: Seq<TrustedEvent>, t: TrustedEvent) -> bool {
    let e = t.event.event;
    &&& forall|k: int| 0 <= k < e.parents@.len() ==> in_incoming(incoming, #[trigger] e.parents@[k]) || store.holds(space, e.parents@[k])
    &&& e.sequence == 0 ==> store.sequence_of(space, e.sender, e.session_id, 0) is None
    &&& e.sequence == 0 ==> (store.sender_head_of(space, e.sender) matches Some(h) ==> e.parents@.contains(h))
    &&& e.sequence > 0 ==> {
        let prev = match incoming_position(incoming, e.sender, e.session_id, (e.sequence - 1) as u64) {
            Some(h) => Some(h),
            None => store.sequence_of(space, e.sender, e.session_id, (e.sequence - 1) as u64),
        };
        prev matches Some(h) && e.parents@.contains(h)
    }
}

/// Whether incoming event `i` has all its incoming parents among `done`.
pub open spec fn ready_in(incoming: Seq<TrustedEvent>, done: Seq<usize>, i: int) -> bool {
    forall|j: int| 0 <= j < incoming.len() && incoming[i].event.event.parents@.contains(#[trigger] incoming[j].hash)
        ==> done.contains(j as usize)
}

/// An order of the incoming events in which parents come before their
/// children, always taking the first ready event (the smallest hash, the
/// events being sorted by hash).
pub open spec fn greedy_order(incoming: Seq<TrustedEvent>, order: Seq<usize>) -> bool {
    &&& order.len() == incoming.len()
    &&& forall|a: int, b: int| 0 <= a < b < order.len() ==> order[a] != order[b]
    &&& forall|k: int| 0 <= k < order.len() ==> #[trigger] order[k] < incoming.len()
    &&& forall|k: int| 0 <= k < order.len() ==> ready_in(incoming, order.take(k), #[trigger] order[k] as int)
    &&& forall|k: int, i: int| 0 <= k < order.len() && 0 <= i < order[k] && !order.take(k).contains(i as usize)
        ==> !#[trigger] ready_in(incoming, order.take(k), i)
}

/// Copies a signed event, field by field.
pub fn copy_signed_event(e: &SignedEventV1) -> (c: SignedEventV1)
    ensures
        same_event(c, *e),
{
    let mut ciphertext: Vec<u8> = Vec::new();
    push_raw(&mut ciphertext, e.event.ciphertext.as_slice());
    assert(ciphertext@ =~= e.event.ciphertext@);
    SignedEventV1 {
        event: crate::protocol::event::EventUnsignedV1 {
            kind: e.event.kind,
            space: e.event.space,
            sender: e.event.sender,
            session_id: e.event.session_id,
            sequence: e.event.sequence,
            key_epoch: e.event.key_epoch,
            membership_revision: e.event.membership_revision,
            parents: copy_hashes(&e.event.parents),
            nonce: e.event.nonce,
            ciphertext,
        },
        signature: e.signature,
    }
}

/// Two signed events with the same fields and contents.
pub open spec fn same_event(a: SignedEventV1, b: SignedEventV1) -> bool {
    &&& a.event.kind == b.event.kind
    &&& a.event.space == b.event.space
    &&& a.event.sender == b.event.sender
    &&& a.event.session_id == b.event.session_id
    &&& a.event.sequence == b.event.sequence
    &&& a.event.key_epoch == b.event.key_epoch
    &&& a.event.membership_revision == b.event.membership_revision
    &&& a.event.parents@ == b.event.parents@
    &&& a.event.nonce == b.event.nonce
    &&& a.event.ciphertext@ == b.event.ciphertext@
    &&& a.signature == b.signature
}

impl TrustedEvent {
    pub fn copy(&self) -> (c: TrustedEvent)
        ensures
            c.hash == self.hash,
            c.encoded@ == self.encoded@,
            same_event(c.event, self.event),
    {
        let mut encoded: Vec<u8> = Vec::new();
        push_raw(&mut encoded, self.encoded.as_slice());
        assert(encoded@ =~= self.encoded@);
        TrustedEvent { hash: self.hash, encoded, event: copy_signed_event(&self.event) }
    }
}

/// The position of the incoming event with hash `h`, the events being
/// sorted by hash.
fn find_incoming(incoming: &Vec<TrustedEvent>, h: &EventHash) -> (r: Option<usize>)
    ensures
        r matches Some(i) ==> i < incoming@.len() && incoming@[i as int].hash == *h,
        r is None ==> !in_incoming(incoming@, *h),
{
    let mut i: usize = 0;
    while i < incoming.len()
        invariant
            0 <= i <= incoming@.len(),
            forall|j: int| 0 <= j < i ==> #[trigger] incoming@[j].hash != *h,
        decreases incoming.len() - i,
    {
        if hash_eq(&incoming[i].hash, h) {
            return Some(i);
        }
        i += 1;
    }
    None
}

/// Whether `h` is among the hashes.
fn hashes_contain(s: &Vec<EventHash>, h: &EventHash) -> (r: bool)
    ensures
        r == s@.contains(*h),
{
    let mut i: usize = 0;
    while i < s.len()
        invariant
            0 <= i <= s@.len(),
            forall|j: int| 0 <= j < i ==> s@[j] != *h,
        decreases s.len() - i,
    {
        if hash_eq(&s[i], h) {
            return true;
        }
        i += 1;
    }
    false
}

fn position_of(incoming: &Vec<TrustedEvent>, sender: &EndpointId, session: &[u8; 16], sequence: u64) -> (r: Option<EventHash>)
    ensures
        r == incoming_position(incoming@, *sender, *session, sequence),
{
    let mut i: usize = 0;
    assert(incoming@.skip(0) =~= incoming@);
    while i < incoming.len()
        invariant
            0 <= i <= incoming@.len(),
            incoming_position(incoming@, *sender, *session, sequence) == incoming_position(incoming@.skip(i as int), *sender, *session, sequence),
        decreases incoming.len() - i,
    {
        let e = &incoming[i].event.event;
        let same_sender = bytes32_eq(&e.sender.0, &sender.0);
        let same_session = crate::protocol::id::bytes16_eq(&e.session_id, session);
        proof {
            let rest = incoming@.skip(i as int);
            assert(rest[0] == incoming@[i as int]);
            assert(rest.drop_first() =~= incoming@.skip(i + 1));
            if same_sender {
                assert(e.sender.0 =~= sender.0);
            } else if e.sender == *sender {
                assert(e.sender.0@ == sender.0@);
            }
            if same_session {
                assert(e.session_id =~= *session);
            } else if e.session_id == *session {
                assert(e.session_id@ == session@);
            }
        }
        if same_sender && same_session && e.sequence == sequence {
            return Some(incoming[i].hash);
        }
        i += 1;
    }
    assert(incoming@.skip(i as int) =~= Seq::<TrustedEvent>::empty());
    None
}

/// The refusals of an event whose links do not hold.
pub open spec fn link_refusal(e: HistoryError) -> bool {
    ||| e is UnresolvedParent
    ||| e is SessionGenesisExists
    ||| e is PriorHeadNotLinked
    ||| e is SequenceGap
    ||| e is MissingSequenceParent
}

/// `inc` are the events of the batch the store lacks, under membership
/// `m`: each accepted, sorted by hash, and every encoding of the batch
/// either held by the store or among them.
pub open spec fn batch_incoming<S: TrustedStore>(store: S, space: SpaceId, raw: RawBatch, m: MembershipState, inc: Seq<TrustedEvent>) -> bool {
    &&& hashes_sorted(incoming_hashes(inc))
    &&& forall|k: int| 0 <= k < inc.len() ==> #[trigger] accepted_event(store, space, raw, m, inc[k])
    &&& forall|j: int| 0 <= j < raw.events@.len() ==> #[trigger] settled_bytes(store, space, inc, raw.events@[j]@)
}

/// Checks the links of every incoming event, in hash order.
fn validate_links<S: TrustedStore>(store: &S, space: &SpaceId, incoming: &Vec<TrustedEvent>) -> (r: Result<(), HistoryError>)
    ensures
        r is Ok ==> links_hold(*store, *space, incoming@),
        r matches Err(e) ==> !encoding_refusal(e),
        r matches Err(e) ==> e is Store || (link_refusal(e) && !links_hold(*store, *space, incoming@)),
        r matches Err(HistoryError::Store(_)) ==> !store.reliable(),
{
    let mut i: usize = 0;
    while i < incoming.len()
        invariant
            0 <= i <= incoming@.len(),
            forall|j: int| 0 <= j < i ==> #[trigger] event_links_hold(*store, *space, incoming@, incoming@[j]),
        decreases incoming.len() - i,
    {
        let e = &incoming[i].event.event;
        let mut k: usize = 0;
        while k < e.parents.len()
            invariant
                0 <= k <= e.parents@.len(),
                i < incoming@.len(),
                e == incoming@[i as int].event.event,
                forall|m: int| 0 <= m < k ==> in_incoming(incoming@, #[trigger] e.parents@[m]) || store.holds(*space, e.parents@[m]),
            decreases e.parents.len() - k,
        {
            let p = &e.parents[k];
            if find_incoming(incoming, p).is_none() {
                let stored = store.event(space, p);
                match stored {
                    Err(msg) => return Err(HistoryError::Store(msg)),
                    Ok(None) => {
                        assert(!event_links_hold(*store, *space, incoming@, incoming@[i as int]));
                        return Err(HistoryError::UnresolvedParent);
                    },
                    Ok(Some(_)) => {},
                }
            }
            k += 1;
        }
        if e.sequence == 0 {
            match store.sequence_hash(space, &e.sender, &e.session_id, 0) {
                Err(msg) => return Err(HistoryError::Store(msg)),
                Ok(Some(_)) => {
                    assert(!event_links_hold(*store, *space, incoming@, incoming@[i as int]));
                    return Err(HistoryError::SessionGenesisExists);
                },
                Ok(None) => {},
            }
            match store.sender_head(space, &e.sender) {
                Err(msg) => return Err(HistoryError::Store(msg)),
                Ok(None) => {},
                Ok(Some(prior)) => {
                    if !hashes_contain(&e.parents, &prior) {
                        assert(!event_links_hold(*store, *space, incoming@, incoming@[i as int]));
                        return Err(HistoryError::PriorHeadNotLinked);
                    }
                },
            }
        } else {
            let previous_sequence = e.sequence - 1;
            let found = position_of(incoming, &e.sender, &e.session_id, previous_sequence);
            let stored = match store.sequence_hash(space, &e.sender, &e.session_id, previous_sequence) {
                Err(msg) => return Err(HistoryError::Store(msg)),
                Ok(o) => o,
            };
            let previous = match found {
                Some(h) => Some(h),
                None => stored,
            };
            match previous {
                None => {
                    assert(!event_links_hold(*store, *space, incoming@, incoming@[i as int]));
                    return Err(HistoryError::SequenceGap);
                },
                Some(h) => {
                    if !hashes_contain(&e.parents, &h) {
                        assert(!event_links_hold(*store, *space, incoming@, incoming@[i as int]));
                        return Err(HistoryError::MissingSequenceParent);
                    }
                },
            }
        }
        assert(event_links_hold(*store, *space, incoming@, incoming@[i as int]));
        i += 1;
    }
    Ok(())
}

pub open spec fn hashes_distinct(incoming: Seq<TrustedEvent>) -> bool {
    forall|a: int, b: int| 0 <= a < incoming.len() && 0 <= b < incoming.len() && a != b ==> incoming[a].hash != incoming[b].hash
}

pub proof fn lemma_sorted_distinct(incoming: Seq<TrustedEvent>)
    requires
        hashes_sorted(incoming_hashes(incoming)),
    ensures
        hashes_distinct(incoming),
{
    assert forall|a: int, b: int| 0 <= a < incoming.len() && 0 <= b < incoming.len() && a != b implies incoming[a].hash != incoming[b].hash by {
        let hs = incoming_hashes(incoming);
        assert(hs[a] == incoming[a].hash && hs[b] == incoming[b].hash);
        if a < b {
            assert(crate::keys::bytes_lt(hs[a]@, hs[b]@));
        } else {
            assert(crate::keys::bytes_lt(hs[b]@, hs[a]@));
        }
        if incoming[a].hash == incoming[b].hash {
            crate::keys::lemma_bytes_lt_irreflexive(hs[a]@);
        }
    }
}

fn is_ready(incoming: &Vec<TrustedEvent>, flags: &Vec<bool>, i: usize, Ghost(done): Ghost<Seq<usize>>) -> (r: bool)
    requires
        i < incoming@.len(),
        flags@.len() == incoming@.len(),
        hashes_distinct(incoming@),
        forall|j: int| 0 <= j < flags@.len() ==> (#[trigger] flags@[j] <==> done.contains(j as usize)),
    ensures
        r == ready_in(incoming@, done, i as int),
{
    let parents = &incoming[i].event.event.parents;
    let mut k: usize = 0;
    while k < parents.len()
        invariant
            0 <= k <= parents@.len(),
            parents@ == incoming@[i as int].event.event.parents@,
            flags@.len() == incoming@.len(),
            hashes_distinct(incoming@),
            forall|j: int| 0 <= j < flags@.len() ==> (#[trigger] flags@[j] <==> done.contains(j as usize)),
            forall|m: int, j: int| 0 <= m < k && 0 <= j < incoming@.len() && #[trigger] incoming@[j].hash == #[trigger] parents@[m]
                ==> done.contains(j as usize),
        decreases parents.len() - k,
    {
        match find_incoming(incoming, &parents[k]) {
            None => {},
            Some(j) => {
                if !flags[j] {
                    proof {
                        assert(parents@.contains(incoming@[j as int].hash)) by {
                            assert(parents@[k as int] == incoming@[j as int].hash);
                        }
                        assert(!done.contains(j as usize));
                    }
                    return false;
                }
            },
        }
        k += 1;
    }
    proof {
        assert forall|j: int| 0 <= j < incoming@.len() && parents@.contains(#[trigger] incoming@[j].hash) implies done.contains(j as usize) by {
            let m = choose|m: int| 0 <= m < parents@.len() && parents@[m] == incoming@[j].hash;
            assert(incoming@[j].hash == parents@[m]);
        }
    }
    true
}

/// Every parent of an incoming event is incoming or stored.
pub open spec fn parents_resolved<S: TrustedStore>(store: S, space: SpaceId, incoming: Seq<TrustedEvent>) -> bool {
    forall|i: int, k: int| 0 <= i < incoming.len() && 0 <= k < incoming[i].event.event.parents@.len()
        ==> in_incoming(incoming, #[trigger] incoming[i].event.event.parents@[k]) || store.holds(space, incoming[i].event.event.parents@[k])
}

/// Fewer than all events are done, and none of the rest is ready: the
/// rest hold a cycle.
pub open spec fn stuck(incoming: Seq<TrustedEvent>, done: Seq<usize>) -> bool {
    &&& done.len() < incoming.len()
    &&& forall|a: int, b: int| 0 <= a < b < done.len() ==> done[a] != done[b]
    &&& forall|i: int| 0 <= i < incoming.len() && !done.contains(i as usize) ==> !#[trigger] ready_in(incoming, done, i)
}

/// Orders the incoming events, parents first, always taking the first
/// ready one; fails on a cycle. Parents outside the batch must be stored.
fn topological_order<S: TrustedStore>(store: &S, space: &SpaceId, incoming: &Vec<TrustedEvent>) -> (r: Result<Vec<usize>, HistoryError>)
    requires
        hashes_sorted(incoming_hashes(incoming@)),
    ensures
        r matches Ok(order) ==> greedy_order(incoming@, order@),
        r == Err::<Vec<usize>, HistoryError>(HistoryError::Cycle) ==> exists|done: Seq<usize>| #[trigger] stuck(incoming@, done),
        r matches Err(e) ==> !encoding_refusal(e),
        r matches Err(e) ==> e is Store || e is Cycle || (link_refusal(e) && !links_hold(*store, *space, incoming@)),
        r matches Err(HistoryError::Store(_)) ==> !store.reliable(),
        r is Ok ==> parents_resolved(*store, *space, incoming@),
        r == Err::<Vec<usize>, HistoryError>(HistoryError::UnresolvedParent) ==> !parents_resolved(*store, *space, incoming@),
{
    proof {
        lemma_sorted_distinct(incoming@);
    }
    let n = incoming.len();
    let mut i: usize = 0;
    while i < n
        invariant
            0 <= i <= n,
            n == incoming@.len(),
            forall|x: int, k: int| 0 <= x < i && 0 <= k < incoming@[x].event.event.parents@.len()
                ==> in_incoming(incoming@, #[trigger] incoming@[x].event.event.parents@[k])
                    || store.holds(*space, incoming@[x].event.event.parents@[k]),
        decreases n - i,
    {
        let parents = &incoming[i].event.event.parents;
        let mut k: usize = 0;
        while k < parents.len()
            invariant
                0 <= k <= parents@.len(),
                i < incoming@.len(),
                parents@ == incoming@[i as int].event.event.parents@,
                forall|x: int, k: int| 0 <= x < i && 0 <= k < incoming@[x].event.event.parents@.len()
                    ==> in_incoming(incoming@, #[trigger] incoming@[x].event.event.parents@[k])
                        || store.holds(*space, incoming@[x].event.event.parents@[k]),
                forall|m: int| 0 <= m < k ==> in_incoming(incoming@, #[trigger] parents@[m]) || store.holds(*space, parents@[m]),
            decreases parents.len() - k,
        {
            if find_incoming(incoming, &parents[k]).is_none() {
                match store.event(space, &parents[k]) {
                    Err(msg) => return Err(HistoryError::Store(msg)),
                    Ok(None) => {
                        assert(!event_links_hold(*store, *space, incoming@, incoming@[i as int]));
                        assert(!parents_resolved(*store, *space, incoming@)) by {
                            assert(!in_incoming(incoming@, incoming@[i as int].event.event.parents@[k as int]));
                        }
                        return Err(HistoryError::UnresolvedParent);
                    },
                    Ok(Some(_)) => {},
                }
            }
            k += 1;
        }
        i += 1;
    }
    assert(parents_resolved(*store, *space, incoming@));
    let mut flags: Vec<bool> = Vec::new();
    let mut z: usize = 0;
    while z < n
        invariant
            0 <= z <= n,
            flags@.len() == z,
            forall|j: int| 0 <= j < z ==> !flags@[j],
        decreases n - z,
    {
        flags.push(false);
        z += 1;
    }
    let mut order: Vec<usize> = Vec::new();
    while order.len() < n
        invariant
            n == incoming@.len(),
            flags@.len() == n,
            hashes_distinct(incoming@),
            order@.len() <= n,
            forall|j: int| 0 <= j < n ==> (#[trigger] flags@[j] <==> order@.contains(j as usize)),
            forall|a: int, b: int| 0 <= a < b < order@.len() ==> order@[a] != order@[b],
            forall|k: int| 0 <= k < order@.len() ==> #[trigger] order@[k] < n,
            forall|k: int| 0 <= k < order@.len() ==> ready_in(incoming@, order@.take(k), #[trigger] order@[k] as int),
            forall|k: int, j: int| 0 <= k < order@.len() && 0 <= j < order@[k] && !order@.take(k).contains(j as usize)
                ==> !#[trigger] ready_in(incoming@, order@.take(k), j),
        decreases n - order@.len(),
    {
        let ghost done = order@;
        let mut j: usize = 0;
        let mut pick: Option<usize> = None;
        while j < n && pick.is_none()
            invariant
                0 <= j <= n,
                n == incoming@.len(),
                flags@.len() == n,
                hashes_distinct(incoming@),
                done == order@,
                forall|x: int| 0 <= x < n ==> (#[trigger] flags@[x] <==> done.contains(x as usize)),
                pick matches Some(p) ==> p == j && j < n && !done.contains(p) && ready_in(incoming@, done, p as int),
                forall|x: int| 0 <= x < j && !done.contains(x as usize) ==> !#[trigger] ready_in(incoming@, done, x),
            decreases n - j, (if pick is None { 1int } else { 0int }),
        {
            if !flags[j] && is_ready(incoming, &flags, j, Ghost(done)) {
                pick = Some(j);
            } else {
                j += 1;
            }
        }
        match pick {
            None => {
                assert(stuck(incoming@, done));
                return Err(HistoryError::Cycle);
            },
            Some(p) => {
                flags.set(p, true);
                order.push(p);
                proof {
                    assert(order@.take(done.len() as int) =~= done);
                    assert forall|k: int| 0 <= k < order@.len() implies #[trigger] order@.take(k) == (if k < done.len() { done.take(k) } else { done }) by {
                        if k < done.len() {
                            assert(order@.take(k) =~= done.take(k));
                        }
                    }
                    assert forall|x: int| 0 <= x < n implies (#[trigger] flags@[x] <==> order@.contains(x as usize)) by {
                        if x == p {
                            assert(order@[done.len() as int] == p);
                        } else {
                            if order@.contains(x as usize) {
                                let q = choose|q: int| 0 <= q < order@.len() && order@[q] == x as usize;
                                if q < done.len() {
                                    assert(done[q] == x as usize);
                                }
                            }
                            if done.contains(x as usize) {
                                let q = choose|q: int| 0 <= q < done.len() && done[q] == x as usize;
                                assert(order@[q] == x as usize);
                            }
                        }
                    }
                    assert forall|a: int, b: int| 0 <= a < b < order@.len() implies order@[a] != order@[b] by {
                        if b == done.len() {
                            assert(order@[a] == done[a]);
                            assert(done.contains(done[a]));
                        }
                    }
                    assert forall|k: int| 0 <= k < order@.len() implies ready_in(incoming@, order@.take(k), #[trigger] order@[k] as int) by {
                        if k < done.len() {
                            assert(order@.take(k) =~= done.take(k));
                            assert(order@[k] == done[k]);
                        } else {
                            assert(order@.take(k) =~= done);
                        }
                    }
                    assert forall|k: int, x: int| 0 <= k < order@.len() && 0 <= x < order@[k] && !order@.take(k).contains(x as usize)
                        implies !#[trigger] ready_in(incoming@, order@.take(k), x) by {
                        if k < done.len() {
                            assert(order@.take(k) =~= done.take(k));
                            assert(order@[k] == done[k]);
                        } else {
                            assert(order@.take(k) =~= done);
                        }
                    }
                }
            },
        }
    }
    Ok(order)
}

/// The membership chain that governs a space.
pub open spec fn membership_scope_spec(space: SpaceId) -> MembershipScopeId {
    match space {
        SpaceId::Flock(f) => MembershipScopeId::Flock(f),
        SpaceId::RoostChannel { roost, .. } => MembershipScopeId::Roost(roost),
    }
}

pub fn membership_scope(space: SpaceId) -> (s: MembershipScopeId)
    ensures
        s == membership_scope_spec(space),
{
    match space {
        SpaceId::Flock(f) => MembershipScopeId::Flock(f),
        SpaceId::RoostChannel { roost, .. } => MembershipScopeId::Roost(roost),
    }
}

/// The sender of `e` was a member at its key epoch in the membership
/// snapshot of its revision, whose key epoch it carries.
pub open spec fn authorized_by(m: MembershipState, e: EventUnsignedV1) -> bool {
    &&& (e.membership_revision as int) < m.snapshot_count()
    &&& m.snapshot_at(e.membership_revision as int).key_epoch == e.key_epoch
    &&& member_at_epoch_in(m.snapshot_at(e.membership_revision as int).members_view(), e.sender, e.key_epoch)
}

/// What every accepted event satisfies: its bytes are canonical and came
/// in the batch, it is an event of the space, its signature and hash
/// check, its sender was authorized, and the store did not hold it yet.
pub open spec fn accepted_event<S: TrustedStore>(store: S, space: SpaceId, raw: RawBatch, m: MembershipState, t: TrustedEvent) -> bool {
    &&& t.encoded@ == signed_event_bytes(t.event)
    &&& exists|j: int| 0 <= j < raw.events@.len() && #[trigger] raw.events@[j]@ == t.encoded@
    &&& t.event.event.kind == KIND_EVENT_V1
    &&& t.event.event.space == space
    &&& event_verify_result(t.event) == Ok::<Seq<u8>, EventError>(t.hash@)
    &&& authorized_by(m, t.event.event)
    &&& store.accepts(t.encoded@)
    &&& !store.holds(space, t.hash)
}

/// The frontier after the events, in order: each adds its hash and retires
/// its parents.
pub open spec fn frontier_after(f: Set<[u8; 32]>, events: Seq<TrustedEvent>) -> Set<[u8; 32]>
    decreases events.len(),
{
    if events.len() == 0 {
        f
    } else {
        frontier_after(f, events.drop_last()).insert(events.last().hash).difference(events.last().event.event.parents@.to_set())
    }
}

/// Every parent of an event comes earlier in the list or is stored.
pub open spec fn parents_first<S: TrustedStore>(store: S, space: SpaceId, events: Seq<TrustedEvent>) -> bool {
    forall|i: int, k: int| 0 <= i < events.len() && 0 <= k < events[i].event.event.parents@.len() ==> {
        let p = #[trigger] events[i].event.event.parents@[k];
        (exists|j: int| 0 <= j < i && #[trigger] events[j].hash == p) || store.holds(space, p)
    }
}

fn insert_hash(v: &mut Vec<EventHash>, h: EventHash)
    requires
        old(v)@.no_duplicates(),
    ensures
        final(v)@.no_duplicates(),
        final(v)@.to_set() == old(v)@.to_set().insert(h),
{
    if !hashes_contain(v, &h) {
        v.push(h);
        proof {
            assert(final(v)@.to_set() =~= old(v)@.to_set().insert(h)) by {
                assert forall|x: [u8; 32]| final(v)@.contains(x) <==> (old(v)@.contains(x) || x == h) by {
                    if final(v)@.contains(x) {
                        let k = choose|k: int| 0 <= k < final(v)@.len() && final(v)@[k] == x;
                        if k < old(v)@.len() {
                            assert(old(v)@[k] == x);
                        }
                    }
                    if old(v)@.contains(x) {
                        let k = choose|k: int| 0 <= k < old(v)@.len() && old(v)@[k] == x;
                        assert(final(v)@[k] == x);
                    }
                    if x == h {
                        assert(final(v)@[old(v)@.len() as int] == x);
                    }
                }
            }
            assert forall|a: int, b: int| 0 <= a < final(v)@.len() && 0 <= b < final(v)@.len() && a != b implies final(v)@[a] != final(v)@[b] by {
                if a == old(v)@.len() {
                    assert(final(v)@[b] == old(v)@[b]);
                    assert(old(v)@.contains(old(v)@[b]));
                } else if b == old(v)@.len() {
                    assert(final(v)@[a] == old(v)@[a]);
                    assert(old(v)@.contains(final(v)@[a]));
                }
            }
        }
    } else {
        assert(old(v)@.to_set() =~= old(v)@.to_set().insert(h));
    }
}

fn remove_hash(v: &mut Vec<EventHash>, h: &EventHash)
    requires
        old(v)@.no_duplicates(),
    ensures
        final(v)@.no_duplicates(),
        final(v)@.to_set() == old(v)@.to_set().remove(*h),
{
    let mut out: Vec<EventHash> = Vec::new();
    let mut i: usize = 0;
    while i < v.len()
        invariant
            0 <= i <= v@.len(),
            v@ == old(v)@,
            v@.no_duplicates(),
            out@.no_duplicates(),
            forall|x: [u8; 32]| out@.contains(x) <==> (v@.take(i as int).contains(x) && x != *h),
        decreases v.len() - i,
    {
        let x = v[i];
        let ghost prev = out@;
        let ghost t0 = v@.take(i as int);
        let ghost t1 = v@.take(i + 1);
        assert(t1 =~= t0.push(x));
        if !hash_eq(&x, h) {
            out.push(x);
        }
        proof {
            assert forall|y: [u8; 32]| out@.contains(y) <==> (t1.contains(y) && y != *h) by {
                if out@.contains(y) {
                    let k = choose|k: int| 0 <= k < out@.len() && out@[k] == y;
                    if k < prev.len() {
                        assert(prev[k] == y);
                        assert(prev.contains(y));
                        let m = choose|m: int| 0 <= m < t0.len() && t0[m] == y;
                        assert(t1[m] == y);
                    } else {
                        assert(t1[i as int] == y);
                    }
                }
                if t1.contains(y) && y != *h {
                    let k = choose|k: int| 0 <= k < t1.len() && t1[k] == y;
                    if k < i {
                        assert(t0[k] == y);
                        assert(prev.contains(y));
                        let m = choose|m: int| 0 <= m < prev.len() && prev[m] == y;
                        assert(out@[m] == y);
                    } else {
                        assert(out@[prev.len() as int] == y);
                    }
                }
            }
            if !(x == *h) {
                assert forall|a: int, b: int| 0 <= a < out@.len() && 0 <= b < out@.len() && a != b implies out@[a] != out@[b] by {
                    if a == prev.len() {
                        assert(out@[b] == prev[b]);
                        assert(prev.contains(prev[b]));
                        let m = choose|m: int| 0 <= m < t0.len() && t0[m] == prev[b];
                        assert(v@[m] == prev[b]);
                        assert(v@[i as int] == x);
                    } else if b == prev.len() {
                        assert(out@[a] == prev[a]);
                        assert(prev.contains(prev[a]));
                        let m = choose|m: int| 0 <= m < t0.len() && t0[m] == prev[a];
                        assert(v@[m] == prev[a]);
                        assert(v@[i as int] == x);
                    } else {
                        assert(out@[a] == prev[a] && out@[b] == prev[b]);
                    }
                }
            }
        }
        i += 1;
    }
    assert(v@.take(v@.len() as int) =~= v@);
    proof {
        assert(out@.to_set() =~= old(v)@.to_set().remove(*h));
    }
    *v = out;
}

pub fn same_position(a: &EventUnsignedV1, sender: &EndpointId, session: &[u8; 16], sequence: u64) -> (r: bool)
    ensures
        r == (a.sender == *sender && a.session_id == *session && a.sequence == sequence),
{
    let s1 = bytes32_eq(&a.sender.0, &sender.0);
    let s2 = crate::protocol::id::bytes16_eq(&a.session_id, session);
    proof {
        if s1 {
            assert(a.sender.0 =~= sender.0);
        } else if a.sender == *sender {
            assert(a.sender.0@ == sender.0@);
        }
        if s2 {
            assert(a.session_id =~= *session);
        } else if a.session_id == *session {
            assert(a.session_id@ == session@);
        }
    }
    s1 && s2 && a.sequence == sequence
}

/// Inserts `t` where its hash keeps the events sorted.
fn insert_sorted(incoming: &mut Vec<TrustedEvent>, t: TrustedEvent)
    requires
        hashes_sorted(incoming_hashes(old(incoming)@)),
        !in_incoming(old(incoming)@, t.hash),
    ensures
        hashes_sorted(incoming_hashes(final(incoming)@)),
        exists|j: int| 0 <= j <= old(incoming)@.len() && final(incoming)@ == #[trigger] old(incoming)@.insert(j, t),
{
    let ghost hs = incoming_hashes(incoming@);
    let mut j: usize = 0;
    while j < incoming.len() && crate::keys::bytes32_lt(&incoming[j].hash, &t.hash)
        invariant
            0 <= j <= incoming@.len(),
            hs == incoming_hashes(incoming@),
            forall|k: int| 0 <= k < j ==> #[trigger] crate::keys::bytes_lt(hs[k]@, t.hash@),
        decreases incoming.len() - j,
    {
        j += 1;
    }
    proof {
        if j < incoming@.len() {
            crate::keys::lemma_bytes_lt_total(hs[j as int]@, t.hash@);
            if hs[j as int]@ == t.hash@ {
                assert(hs[j as int] =~= t.hash);
                assert(incoming@[j as int].hash == t.hash);
            }
            assert(crate::keys::bytes_lt(t.hash@, hs[j as int]@));
        }
    }
    let ghost before = incoming@;
    let h = t.hash;
    incoming.insert(j, t);
    proof {
        let nh = incoming_hashes(incoming@);
        assert(nh =~= hs.insert(j as int, h));
        assert forall|a: int, b: int| 0 <= a < b < nh.len() implies #[trigger] crate::keys::bytes_lt(nh[a]@, nh[b]@) by {
            if b < j {
                assert(nh[a] == hs[a] && nh[b] == hs[b]);
            } else if b == j {
                assert(nh[a] == hs[a]);
            } else if a == j {
                assert(nh[b] == hs[b - 1]);
                if b - 1 > j {
                    assert(crate::keys::bytes_lt(hs[j as int]@, hs[b - 1]@));
                    crate::keys::lemma_bytes_lt_transitive(h@, hs[j as int]@, hs[b - 1]@);
                }
            } else if a < j {
                assert(nh[a] == hs[a] && nh[b] == hs[b - 1]);
            } else {
                assert(nh[a] == hs[a - 1] && nh[b] == hs[b - 1]);
            }
        }
        assert(incoming@ == before.insert(j as int, incoming@[j as int]));
    }
}

pub proof fn lemma_accepted_copy<S: TrustedStore>(store: S, space: SpaceId, raw: RawBatch, m: MembershipState, a: TrustedEvent, b: TrustedEvent)
    requires
        accepted_event(store, space, raw, m, b),
        a.hash == b.hash,
        a.encoded@ == b.encoded@,
        same_event(a.event, b.event),
    ensures
        accepted_event(store, space, raw, m, a),
{
    assert(signed_event_bytes(a.event) == signed_event_bytes(b.event));
    assert(event_verify_result(a.event) == event_verify_result(b.event));
}

/// An event accepted under one membership state is accepted under any
/// state with the same authority.
pub proof fn lemma_accepted_under<S: TrustedStore>(store: S, space: SpaceId, raw: RawBatch, a: MembershipState, b: MembershipState, t: TrustedEvent)
    requires
        same_authority(a, b),
        accepted_event(store, space, raw, a, t),
    ensures
        accepted_event(store, space, raw, b, t),
{
    let r = t.event.event.membership_revision as int;
    assert(a.snapshot_at(r).key_epoch == b.snapshot_at(r).key_epoch);
}

pub proof fn lemma_order_parents_first<S: TrustedStore>(
    store: S,
    space: SpaceId,
    incoming: Seq<TrustedEvent>,
    order: Seq<usize>,
    events: Seq<TrustedEvent>,
)
    requires
        links_hold(store, space, incoming),
        greedy_order(incoming, order),
        hashes_distinct(incoming),
        events.len() == order.len(),
        incoming.len() <= usize::MAX,
        forall|q: int| 0 <= q < events.len() ==> #[trigger] events[q].hash == incoming[order[q] as int].hash
            && events[q].event.event.parents@ == incoming[order[q] as int].event.event.parents@,
    ensures
        parents_first(store, space, events),
        hashes_distinct(events),
{
    assert forall|i: int, k: int| 0 <= i < events.len() && 0 <= k < events[i].event.event.parents@.len() implies {
        let p = #[trigger] events[i].event.event.parents@[k];
        (exists|j: int| 0 <= j < i && #[trigger] events[j].hash == p) || store.holds(space, p)
    } by {
        let p = events[i].event.event.parents@[k];
        let oi = order[i] as int;
        assert(events[i].hash == incoming[oi].hash);
        assert(order[i] < incoming.len());
        assert(event_links_hold(store, space, incoming, incoming[oi]));
        assert(incoming[oi].event.event.parents@[k] == p);
        if in_incoming(incoming, p) {
            let j = choose|j: int| 0 <= j < incoming.len() && #[trigger] incoming[j].hash == p;
            assert(incoming[oi].event.event.parents@.contains(incoming[j].hash));
            assert(ready_in(incoming, order.take(i), oi));
            assert(order.take(i).contains(j as usize));
            let q = choose|q: int| 0 <= q < order.take(i).len() && order.take(i)[q] == j as usize;
            assert(order[q] == j as usize);
            assert(events[q].hash == incoming[order[q] as int].hash);
            assert(events[q].hash == p);
        }
    }
    assert forall|a: int, b: int| 0 <= a < events.len() && 0 <= b < events.len() && a != b implies events[a].hash != events[b].hash by {
        assert(events[a].hash == incoming[order[a] as int].hash);
        assert(events[b].hash == incoming[order[b] as int].hash);
        assert(order[a] < incoming.len() && order[b] < incoming.len());
        if a < b {
            assert(order[a] != order[b]);
        } else {
            assert(order[b] != order[a]);
        }
    }
}

/// Bytes of a raw event are settled when a validated event carries exactly
/// them, or when the event they encode was already stored.
pub open spec fn settled_bytes<S: TrustedStore>(store: S, space: SpaceId, events: Seq<TrustedEvent>, b: Seq<u8>) -> bool {
    ||| exists|i: int| 0 <= i < events.len() && #[trigger] events[i].encoded@ == b
    ||| forall|e: SignedEventV1| #[trigger] signed_event_bytes(e) == b
            ==> exists|h: [u8; 32]| h@ == event_hash(e.event) && store.holds(space, h)
}

/// Every raw event is settled.
pub open spec fn raw_settled<S: TrustedStore>(store: S, space: SpaceId, raw: RawBatch, events: Seq<TrustedEvent>) -> bool {
    forall|j: int| 0 <= j < raw.events@.len() ==> #[trigger] settled_bytes(store, space, events, raw.events@[j]@)
}

/// What a successfully validated batch satisfies, against the store as it
/// was before: every event is accepted, no hash repeats, parents come
/// first, and the new head counts the events and retires their parents.
pub open spec fn batch_outcome<S: TrustedStore>(store: S, space: SpaceId, raw: RawBatch, v: VerifiedBatch) -> bool {
    &&& bounds_result(raw) is Ok
    &&& raw.summary.space == space
    &&& store.membership_of(space).spec_scope() == membership_scope_spec(space)
    &&& forall|i: int| 0 <= i < v.events@.len() ==> #[trigger] accepted_event(store, space, raw, store.membership_of(space), v.events@[i])
    &&& hashes_distinct(v.events@)
    &&& parents_first(store, space, v.events@)
    &&& head_valid(v.head)
    &&& v.head.event_count == store.head_of(space).1 + v.events@.len()
    &&& v.head.frontier@.to_set() == frontier_after(store.head_of(space).0.to_set(), v.events@)
    &&& canonical_order(v.events@)
    &&& raw_settled(store, space, raw, v.events@)
    &&& store.head_commitment_of(space) == head_commitment_spec(store.head_of(space).0, store.head_of(space).1)
    &&& store.head_of(space).0.len() <= MAX_FRONTIER && hashes_sorted(store.head_of(space).0)
    &&& forall|j: int| 0 <= j < raw.events@.len() ==> #[trigger] valid_encoding(store, space, raw, store.membership_of(space), j)
    &&& positions_distinct(v.events@)
    &&& exists|inc: Seq<TrustedEvent>| #[trigger] batch_incoming(store, space, raw, store.membership_of(space), inc)
        && order::same_entries(v.events@, inc) && links_hold(store, space, inc)
}

/// A valid head is determined by its frontier's hashes and its count: two
/// valid heads over the same hashes and count have the same frontier and
/// the same commitment.
pub proof fn lemma_head_determined(a: HistoryHead, b: HistoryHead)
    requires
        head_valid(a),
        head_valid(b),
        same_elements(a.frontier@, b.frontier@),
        a.event_count == b.event_count,
    ensures
        a.frontier@ == b.frontier@,
        a.commitment == b.commitment,
{
    assert(a.frontier@.to_set() =~= b.frontier@.to_set());
    lemma_sorted_same_set(a.frontier@, b.frontier@);
    assert(a.commitment =~= b.commitment);
}

proof fn lemma_sorted_same_set(a: Seq<[u8; 32]>, b: Seq<[u8; 32]>)
    requires
        hashes_sorted(a),
        hashes_sorted(b),
        a.to_set() == b.to_set(),
    ensures
        a == b,
    decreases a.len(),
{
    if a.len() == 0 {
        if b.len() > 0 {
            assert(b.to_set().contains(b[0]));
        }
        assert(b =~= a);
    } else {
        assert(a.to_set().contains(a[0]));
        assert(b.to_set().contains(a[0]));
        assert(b.len() > 0);
        if a[0] != b[0] {
            assert(a.to_set().contains(b[0]));
            let i = choose|i: int| 0 <= i < a.len() && a[i] == b[0];
            let j = choose|j: int| 0 <= j < b.len() && b[j] == a[0];
            assert(i > 0 && j > 0);
            assert(bytes_lt(a[0]@, a[i]@));
            assert(bytes_lt(b[0]@, b[j]@));
            crate::keys::lemma_bytes_lt_transitive(a[0]@, b[0]@, a[0]@);
            crate::keys::lemma_bytes_lt_irreflexive(a[0]@);
        }
        let ra = a.drop_first();
        let rb = b.drop_first();
        assert(ra.to_set() =~= rb.to_set()) by {
            assert forall|x: [u8; 32]| ra.to_set().contains(x) <==> rb.to_set().contains(x) by {
                if ra.to_set().contains(x) {
                    let i = choose|i: int| 0 <= i < ra.len() && ra[i] == x;
                    assert(a[i + 1] == x);
                    assert(bytes_lt(a[0]@, x@));
                    assert(b.to_set().contains(x));
                    let j = choose|j: int| 0 <= j < b.len() && b[j] == x;
                    if j == 0 {
                        crate::keys::lemma_bytes_lt_irreflexive(x@);
                    }
                    assert(rb[j - 1] == x);
                }
                if rb.to_set().contains(x) {
                    let j = choose|j: int| 0 <= j < rb.len() && rb[j] == x;
                    assert(b[j + 1] == x);
                    assert(bytes_lt(b[0]@, x@));
                    assert(a.to_set().contains(x));
                    let i = choose|i: int| 0 <= i < a.len() && a[i] == x;
                    if i == 0 {
                        crate::keys::lemma_bytes_lt_irreflexive(x@);
                    }
                    assert(ra[i - 1] == x);
                }
            }
        }
        assert(hashes_sorted(ra)) by {
            assert forall|i: int, j: int| 0 <= i < j < ra.len() implies #[trigger] bytes_lt(ra[i]@, ra[j]@) by {
                assert(bytes_lt(a[i + 1]@, a[j + 1]@));
            }
        }
        assert(hashes_sorted(rb)) by {
            assert forall|i: int, j: int| 0 <= i < j < rb.len() implies #[trigger] bytes_lt(rb[i]@, rb[j]@) by {
                assert(bytes_lt(b[i + 1]@, b[j + 1]@));
            }
        }
        lemma_sorted_same_set(ra, rb);
        assert(a =~= seq![a[0]] + ra);
        assert(b =~= seq![b[0]] + rb);
    }
}

proof fn lemma_frontier_after_same(f: Set<[u8; 32]>, a: Seq<TrustedEvent>, b: Seq<TrustedEvent>)
    requires
        a.len() == b.len(),
        forall|i: int| 0 <= i < a.len() ==> #[trigger] a[i].hash == b[i].hash
            && a[i].event.event.parents@ == b[i].event.event.parents@,
    ensures
        frontier_after(f, a) == frontier_after(f, b),
    decreases a.len(),
{
    if a.len() > 0 {
        assert(a.last().hash == b.last().hash);
        lemma_frontier_after_same(f, a.drop_last(), b.drop_last());
    }
}

/// The events a validated batch carries, with the store they were
/// validated against: accepted, and with their hashes and encodings.
proof fn lemma_entry_found<S: TrustedStore>(
    s1: S,
    s2: S,
    space: SpaceId,
    raw1: RawBatch,
    raw2: RawBatch,
    v1: VerifiedBatch,
    v2: VerifiedBatch,
    i: int,
)
    requires
        batch_outcome(s1, space, raw1, v1),
        batch_outcome(s2, space, raw2, v2),
        byte_views(raw1.events@).to_set() == byte_views(raw2.events@).to_set(),
        forall|h: [u8; 32]| s1.holds(space, h) == s2.holds(space, h),
        0 <= i < v1.events@.len(),
    ensures
        order::listed_with(v2.events@, v1.events@[i]),
{
    let m1 = s1.membership_of(space);
    let m2 = s2.membership_of(space);
    let t1 = v1.events@[i];
    assert(accepted_event(s1, space, raw1, m1, t1));
    let b = t1.encoded@;
    let j1 = choose|j: int| 0 <= j < raw1.events@.len() && #[trigger] raw1.events@[j]@ == b;
    assert(byte_views(raw1.events@)[j1] == b);
    assert(byte_views(raw1.events@).to_set().contains(b));
    assert(byte_views(raw2.events@).to_set().contains(b));
    let j2 = choose|j: int| 0 <= j < byte_views(raw2.events@).len() && byte_views(raw2.events@)[j] == b;
    assert(raw2.events@[j2]@ == b);
    assert(settled_bytes(s2, space, v2.events@, raw2.events@[j2]@));
    if !(exists|q: int| 0 <= q < v2.events@.len() && #[trigger] v2.events@[q].encoded@ == b) {
        assert(signed_event_bytes(t1.event) == b);
        let h = choose|h: [u8; 32]| h@ == event_hash(t1.event.event) && s2.holds(space, h);
        assert(h =~= t1.hash);
        assert(false);
    }
    let q = choose|q: int| 0 <= q < v2.events@.len() && #[trigger] v2.events@[q].encoded@ == b;
    let t2 = v2.events@[q];
    assert(accepted_event(s2, space, raw2, m2, t2));
    crate::protocol::event::lemma_signed_event_bytes_injective(t1.event, t2.event);
    assert(event_bytes(t1.event.event) == event_bytes(t2.event.event));
    assert(t2.hash =~= t1.hash);
}

/// Validation is deterministic: two batches carrying the same event
/// encodings, validated against stores that hold the same events under
/// the same head, give the same events in the same order and the same new
/// head, whatever order the encodings came in.
pub proof fn lemma_validation_is_deterministic<S: TrustedStore>(
    s1: S,
    s2: S,
    space: SpaceId,
    raw1: RawBatch,
    raw2: RawBatch,
    v1: VerifiedBatch,
    v2: VerifiedBatch,
)
    requires
        batch_outcome(s1, space, raw1, v1),
        batch_outcome(s2, space, raw2, v2),
        byte_views(raw1.events@).to_set() == byte_views(raw2.events@).to_set(),
        forall|h: [u8; 32]| s1.holds(space, h) == s2.holds(space, h),
        s1.head_of(space) == s2.head_of(space),
    ensures
        incoming_hashes(v1.events@) == incoming_hashes(v2.events@),
        v1.head.frontier@ == v2.head.frontier@,
        v1.head.event_count == v2.head.event_count,
        v1.head.commitment == v2.head.commitment,
{
    let a = v1.events@;
    let b = v2.events@;
    assert forall|i: int| 0 <= i < a.len() implies #[trigger] order::listed_with(b, a[i]) by {
        lemma_entry_found(s1, s2, space, raw1, raw2, v1, v2, i);
    }
    assert forall|j: int| 0 <= j < b.len() implies #[trigger] order::listed_with(a, b[j]) by {
        lemma_entry_found(s2, s1, space, raw2, raw1, v2, v1, j);
    }
    order::lemma_canonical_order_unique(a, b);
    assert(incoming_hashes(a) =~= incoming_hashes(b));
    assert forall|i: int| 0 <= i < a.len() implies #[trigger] a[i].hash == b[i].hash
        && a[i].event.event.parents@ == b[i].event.event.parents@ by {
        assert(order::listed_with(b, a[i]));
        let j = choose|j: int| 0 <= j < b.len() && #[trigger] b[j].hash == a[i].hash
            && b[j].event.event.parents@ == a[i].event.event.parents@;
        if j != i {
            assert(b[j].hash == b[i].hash);
            assert(false);
        }
    }
    lemma_frontier_after_same(s1.head_of(space).0.to_set(), a, b);
    lemma_sorted_same_set(v1.head.frontier@, v2.head.frontier@);
    assert(v1.head.commitment =~= v2.head.commitment);
}

/// The refusals of a batch whose counts or sizes are out of bounds.
pub open spec fn bounds_refusal(e: HistoryError) -> bool {
    ||| e is FrontierTooLarge
    ||| e is FrontierNotSorted
    ||| e is EventCountTooLarge
    ||| e is ResponseTooLarge
    ||| e is TooManyEvents
    ||| e is EventCountMismatch
    ||| e is EventTooLarge
    ||| e is ByteCountMismatch
    ||| e is PayloadTooLarge
}

/// The refusals of a single event encoding, decided on its bytes alone.
pub open spec fn encoding_refusal(e: HistoryError) -> bool {
    ||| e is MalformedEvent
    ||| e is UnexpectedKind
    ||| e is EventSpaceMismatch
    ||| e is TooManyParents
    ||| e is CiphertextTooLarge
    ||| e is InvalidEvent
}

/// Encoding `j` of the batch decodes to `e`.
pub open spec fn decodes_at(raw: RawBatch, j: int, e: SignedEventV1) -> bool {
    0 <= j < raw.events@.len() && signed_event_bytes(e) == raw.events@[j]@
}

/// No signed event has these canonical bytes.
pub open spec fn undecodable(bytes: Seq<u8>) -> bool {
    !exists|e: SignedEventV1| #[trigger] signed_event_bytes(e) == bytes
}

/// Event `t` takes a sender's session position.
pub open spec fn at_slot(t: TrustedEvent, sender: EndpointId, session: [u8; 16], sequence: u64) -> bool {
    &&& t.event.event.sender == sender
    &&& t.event.event.session_id == session
    &&& t.event.event.sequence == sequence
}

/// Two events take the same session position.
pub open spec fn same_slot(a: TrustedEvent, b: TrustedEvent) -> bool {
    at_slot(a, b.event.event.sender, b.event.event.session_id, b.event.event.sequence)
}

/// No two events take the same session position.
pub open spec fn positions_distinct(s: Seq<TrustedEvent>) -> bool {
    forall|a: int, b: int| 0 <= a < s.len() && 0 <= b < s.len() && a != b ==> !#[trigger] same_slot(s[a], s[b])
}

/// Encoding `j` of the batch decodes to an event of the space and of the
/// current kind, whose signature and hash check, whose sender was
/// authorized under `m`, and which the store's authentication accepts.
pub open spec fn valid_encoding<S: TrustedStore>(store: S, space: SpaceId, raw: RawBatch, m: MembershipState, j: int) -> bool {
    exists|e: SignedEventV1| #[trigger] decodes_at(raw, j, e)
        && e.event.kind == KIND_EVENT_V1 && e.event.space == space
        && event_verify_result(e) is Ok && authorized_by(m, e.event) && store.accepts(raw.events@[j]@)
}

/// The head a store keeps for a space: frontier, count and commitment.
pub open spec fn stored_head<S: TrustedStore>(store: S, space: SpaceId) -> (Seq<[u8; 32]>, u64, Seq<u8>) {
    (store.head_of(space).0, store.head_of(space).1, store.head_commitment_of(space))
}

/// A head as frontier, count and commitment.
pub open spec fn head_triple(h: HistoryHead) -> (Seq<[u8; 32]>, u64, Seq<u8>) {
    (h.frontier@, h.event_count, h.commitment@)
}

/// A batch the store takes: its reads succeed; the batch is within bounds
/// and of the space; the stored head is sound; every encoding decodes, and
/// each decoding is of the space and kind, within the parent and
/// ciphertext bounds, correctly signed, authorized at its revision,
/// accepted by the store's authentication, and agrees with what the store
/// holds under its hash and at its session position; two encodings with
/// one hash are the same bytes, and two at one position have one hash; the
/// events the store lacks link to their sessions and parents, hold no
/// cycle, and keep the count and the new frontier within bounds; and the
/// store's commit takes the outcome.
pub open spec fn batch_acceptable<S: TrustedStore>(store: S, space: SpaceId, raw: RawBatch) -> bool {
    let m = store.membership_of(space);
    &&& store.reliable()
    &&& bounds_result(raw) is Ok
    &&& raw.summary.space == space
    &&& store.head_commitment_of(space) == head_commitment_spec(store.head_of(space).0, store.head_of(space).1)
    &&& store.head_of(space).0.len() <= MAX_FRONTIER && hashes_sorted(store.head_of(space).0)
    &&& m.spec_scope() == membership_scope_spec(space)
    &&& forall|j: int| 0 <= j < raw.events@.len() ==> !#[trigger] undecodable(raw.events@[j]@)
    &&& forall|j: int, e: SignedEventV1| #[trigger] decodes_at(raw, j, e) ==> {
        &&& e.event.kind == KIND_EVENT_V1
        &&& e.event.space == space
        &&& e.event.parents@.len() <= crate::protocol::event::MAX_EVENT_PARENTS
        &&& e.event.ciphertext@.len() <= MAX_CIPHERTEXT_BYTES
        &&& event_verify_result(e) is Ok
        &&& authorized_by(m, e.event)
        &&& store.accepts(raw.events@[j]@)
        &&& forall|h: [u8; 32]| h@ == event_hash(e.event) && #[trigger] store.holds(space, h) ==> store.encoded_of(space, h) == raw.events@[j]@
        &&& store.sequence_of(space, e.event.sender, e.event.session_id, e.event.sequence) matches Some(h) ==> h@ == event_hash(e.event)
    }
    &&& forall|j: int, e: SignedEventV1, k: int, f: SignedEventV1| #[trigger] decodes_at(raw, j, e) && #[trigger] decodes_at(raw, k, f) ==> {
        &&& event_hash(f.event) == event_hash(e.event) ==> raw.events@[k]@ == raw.events@[j]@
        &&& e.event.sender == f.event.sender && e.event.session_id == f.event.session_id && e.event.sequence == f.event.sequence
            ==> event_hash(e.event) == event_hash(f.event)
    }
    &&& forall|inc: Seq<TrustedEvent>| #[trigger] batch_incoming(store, space, raw, m, inc) ==> {
        &&& links_hold(store, space, inc)
        &&& forall|done: Seq<usize>| !#[trigger] stuck(inc, done)
        &&& store.head_of(space).1 + inc.len() <= u64::MAX
        &&& forall|evs: Seq<TrustedEvent>| #[trigger] canonical_order(evs) && order::same_entries(evs, inc)
            ==> frontier_after(store.head_of(space).0.to_set(), evs).len() <= MAX_FRONTIER
    }
    &&& forall|v: VerifiedBatch| #[trigger] batch_outcome(store, space, raw, v)
        ==> store.commit_accepts(space, stored_head(store, space), v.events@, head_triple(v.head))
}

/// Adds the length of an encoding to a running total.
pub open spec fn add_len(x: Seq<u8>, acc: nat) -> nat {
    acc + x.len()
}

proof fn lemma_total_len_fold(s: Seq<Seq<u8>>, v: nat)
    ensures
        s.fold_right(|x: Seq<u8>, acc: nat| add_len(x, acc), v) == total_len(s) + v,
    decreases s.len(),
{
    if s.len() > 0 {
        lemma_total_len_fold(s.drop_last(), v + s.last().len());
        assert(s.subrange(0, s.len() - 1) =~= s.drop_last());
    }
}

/// The total length of encodings does not depend on their order.
proof fn lemma_total_len_reordered(a: Seq<Seq<u8>>, b: Seq<Seq<u8>>)
    requires
        a.to_multiset() == b.to_multiset(),
    ensures
        total_len(a) == total_len(b),
{
    let f = |x: Seq<u8>, acc: nat| add_len(x, acc);
    assert(vstd::seq_lib::commutative_foldr(f));
    vstd::seq_lib::lemma_fold_right_permutation(a, b, f, 0);
    lemma_total_len_fold(a, 0);
    lemma_total_len_fold(b, 0);
}

/// Sizes check out exactly when every encoding is within the body bound
/// and their total within the page bound; the total is what they sum to.
proof fn lemma_sizes_ok(s: Seq<Seq<u8>>)
    ensures
        sizes_result(s) is Ok <==> (forall|i: int| 0 <= i < s.len() ==> (#[trigger] s[i]).len() <= MAX_BODY_BYTES)
            && total_len(s) <= MAX_HISTORY_PAGE_BYTES,
        sizes_result(s) is Ok ==> sizes_result(s) == Ok::<nat, HistoryError>(total_len(s)),
    decreases s.len(),
{
    if s.len() > 0 {
        let t = s.drop_last();
        lemma_sizes_ok(t);
        assert forall|i: int| 0 <= i < t.len() implies t[i] == s[i] by {}
        if (forall|i: int| 0 <= i < s.len() ==> (#[trigger] s[i]).len() <= MAX_BODY_BYTES) && total_len(s) <= MAX_HISTORY_PAGE_BYTES {
            assert(s.last() == s[s.len() - 1]);
            assert forall|i: int| 0 <= i < t.len() implies (#[trigger] t[i]).len() <= MAX_BODY_BYTES by {
                assert(t[i] == s[i]);
            }
        }
        if sizes_result(s) is Ok {
            assert forall|i: int| 0 <= i < s.len() implies (#[trigger] s[i]).len() <= MAX_BODY_BYTES by {
                if i < t.len() {
                    assert(t[i] == s[i]);
                }
            }
        }
    }
}

proof fn lemma_reordered_index(x: Seq<Seq<u8>>, y: Seq<Seq<u8>>, j: int) -> (k: int)
    requires
        x.to_multiset() == y.to_multiset(),
        0 <= j < y.len(),
    ensures
        0 <= k < x.len(),
        x[k] == y[j],
{
    broadcast use vstd::seq_lib::group_to_multiset_ensures;
    assert(y.contains(y[j]));
    assert(x.to_multiset().count(y[j]) > 0);
    assert(x.contains(y[j]));
    choose|k: int| 0 <= k < x.len() && x[k] == y[j]
}

proof fn lemma_reordered_bounds(a: RawBatch, b: RawBatch)
    requires
        a.summary == b.summary,
        byte_views(a.events@).to_multiset() == byte_views(b.events@).to_multiset(),
    ensures
        bounds_result(a) is Ok ==> bounds_result(b) is Ok,
        a.events@.len() == b.events@.len(),
{
    broadcast use vstd::seq_lib::group_to_multiset_ensures;
    let x = byte_views(a.events@);
    let y = byte_views(b.events@);
    assert(x.len() == x.to_multiset().len());
    assert(y.len() == y.to_multiset().len());
    lemma_sizes_ok(x);
    lemma_sizes_ok(y);
    lemma_total_len_reordered(x, y);
    if sizes_result(x) is Ok {
        assert forall|i: int| 0 <= i < y.len() implies (#[trigger] y[i]).len() <= MAX_BODY_BYTES by {
            let k = lemma_reordered_index(x, y, i);
            assert(x[k].len() <= MAX_BODY_BYTES);
        }
    }
}

/// Reordering keeps acceptance: a batch whose encodings are those of an
/// acceptable batch, in another order and under the same summary, is
/// acceptable too; so, by `validate_batch`'s contract, an acceptable batch
/// is taken whatever order its events come in.
pub proof fn lemma_acceptable_in_any_order<S: TrustedStore>(store: S, space: SpaceId, a: RawBatch, b: RawBatch)
    requires
        a.summary == b.summary,
        byte_views(a.events@).to_multiset() == byte_views(b.events@).to_multiset(),
        batch_acceptable(store, space, a),
    ensures
        batch_acceptable(store, space, b),
{
    let m = store.membership_of(space);
    let x = byte_views(a.events@);
    let y = byte_views(b.events@);
    lemma_reordered_bounds(a, b);
    assert forall|j: int| #![trigger b.events@[j]] 0 <= j < b.events@.len() implies exists|k: int| 0 <= k < a.events@.len() && #[trigger] a.events@[k]@ == b.events@[j]@ by {
        let k = lemma_reordered_index(x, y, j);
        assert(a.events@[k]@ == x[k]);
    }
    assert forall|k: int| #![trigger a.events@[k]] 0 <= k < a.events@.len() implies exists|j: int| 0 <= j < b.events@.len() && #[trigger] b.events@[j]@ == a.events@[k]@ by {
        let j = lemma_reordered_index(y, x, k);
        assert(b.events@[j]@ == y[j]);
    }
    assert forall|j: int| 0 <= j < b.events@.len() implies !#[trigger] undecodable(b.events@[j]@) by {
        let k = choose|k: int| 0 <= k < a.events@.len() && #[trigger] a.events@[k]@ == b.events@[j]@;
        assert(!undecodable(a.events@[k]@));
    }
    assert forall|j: int, e: SignedEventV1| #[trigger] decodes_at(b, j, e) implies {
        &&& e.event.kind == KIND_EVENT_V1
        &&& e.event.space == space
        &&& e.event.parents@.len() <= crate::protocol::event::MAX_EVENT_PARENTS
        &&& e.event.ciphertext@.len() <= MAX_CIPHERTEXT_BYTES
        &&& event_verify_result(e) is Ok
        &&& authorized_by(m, e.event)
        &&& store.accepts(b.events@[j]@)
        &&& forall|h: [u8; 32]| h@ == event_hash(e.event) && #[trigger] store.holds(space, h) ==> store.encoded_of(space, h) == b.events@[j]@
        &&& store.sequence_of(space, e.event.sender, e.event.session_id, e.event.sequence) matches Some(h) ==> h@ == event_hash(e.event)
    } by {
        let k = choose|k: int| 0 <= k < a.events@.len() && #[trigger] a.events@[k]@ == b.events@[j]@;
        assert(decodes_at(a, k, e));
    }
    assert forall|j: int, e: SignedEventV1, k: int, f: SignedEventV1| #[trigger] decodes_at(b, j, e) && #[trigger] decodes_at(b, k, f) implies {
        &&& event_hash(f.event) == event_hash(e.event) ==> b.events@[k]@ == b.events@[j]@
        &&& e.event.sender == f.event.sender && e.event.session_id == f.event.session_id && e.event.sequence == f.event.sequence
            ==> event_hash(e.event) == event_hash(f.event)
    } by {
        let j2 = choose|q: int| 0 <= q < a.events@.len() && #[trigger] a.events@[q]@ == b.events@[j]@;
        let k2 = choose|q: int| 0 <= q < a.events@.len() && #[trigger] a.events@[q]@ == b.events@[k]@;
        assert(decodes_at(a, j2, e) && decodes_at(a, k2, f));
    }
    assert forall|inc: Seq<TrustedEvent>| #[trigger] batch_incoming(store, space, b, m, inc) implies batch_incoming(store, space, a, m, inc) by {
        assert forall|q: int| 0 <= q < inc.len() implies #[trigger] accepted_event(store, space, a, m, inc[q]) by {
            assert(accepted_event(store, space, b, m, inc[q]));
            let j = choose|j: int| 0 <= j < b.events@.len() && #[trigger] b.events@[j]@ == inc[q].encoded@;
            let k = choose|k: int| 0 <= k < a.events@.len() && #[trigger] a.events@[k]@ == b.events@[j]@;
            assert(a.events@[k]@ == inc[q].encoded@);
        }
        assert forall|k: int| 0 <= k < a.events@.len() implies #[trigger] settled_bytes(store, space, inc, a.events@[k]@) by {
            let j = choose|j: int| 0 <= j < b.events@.len() && #[trigger] b.events@[j]@ == a.events@[k]@;
            assert(settled_bytes(store, space, inc, b.events@[j]@));
        }
    }
    assert forall|v: VerifiedBatch| #[trigger] batch_outcome(store, space, b, v) implies batch_outcome(store, space, a, v) by {
        assert forall|q: int| 0 <= q < v.events@.len() implies #[trigger] accepted_event(store, space, a, m, v.events@[q]) by {
            assert(accepted_event(store, space, b, m, v.events@[q]));
            let j = choose|j: int| 0 <= j < b.events@.len() && #[trigger] b.events@[j]@ == v.events@[q].encoded@;
            let k = choose|k: int| 0 <= k < a.events@.len() && #[trigger] a.events@[k]@ == b.events@[j]@;
            assert(a.events@[k]@ == v.events@[q].encoded@);
        }
        assert forall|k: int| 0 <= k < a.events@.len() implies #[trigger] settled_bytes(store, space, v.events@, a.events@[k]@) by {
            let j = choose|j: int| 0 <= j < b.events@.len() && #[trigger] b.events@[j]@ == a.events@[k]@;
            assert(settled_bytes(store, space, v.events@, b.events@[j]@));
        }
        assert forall|k: int| 0 <= k < a.events@.len() implies #[trigger] valid_encoding(store, space, a, m, k) by {
            let j = choose|j: int| 0 <= j < b.events@.len() && #[trigger] b.events@[j]@ == a.events@[k]@;
            assert(valid_encoding(store, space, b, m, j));
            let e = choose|e: SignedEventV1| #[trigger] decodes_at(b, j, e)
                && e.event.kind == KIND_EVENT_V1 && e.event.space == space
                && event_verify_result(e) is Ok && authorized_by(m, e.event) && store.accepts(b.events@[j]@);
            assert(decodes_at(a, k, e));
        }
        let inc = choose|inc: Seq<TrustedEvent>| #[trigger] batch_incoming(store, space, b, m, inc)
            && order::same_entries(v.events@, inc) && links_hold(store, space, inc);
        assert(batch_incoming(store, space, a, m, inc));
    }
}

/// The refusals `validate_batch` can give.
pub open spec fn batch_refusal(e: HistoryError) -> bool {
    ||| bounds_refusal(e)
    ||| encoding_refusal(e)
    ||| link_refusal(e)
    ||| e is SpaceMismatch
    ||| e is InvalidStoreHead
    ||| e is InvalidStoreFrontier
    ||| e is MembershipScopeMismatch
    ||| e is UnknownMembershipRevision
    ||| e is KeyEpochMismatch
    ||| e is SenderNotMember
    ||| e is Authentication
    ||| e is DuplicateHashConflict
    ||| e is SequenceConflictInBatch
    ||| e is SequenceConflictInStore
    ||| e is Cycle
    ||| e is ResultingFrontierTooLarge
    ||| e is CountOverflow
    ||| e is CommitFailed
    ||| e is Store
}

proof fn lemma_incoming_position(s: Seq<TrustedEvent>, sender: EndpointId, session: [u8; 16], sequence: u64)
    ensures
        incoming_position(s, sender, session, sequence) is None
            ==> forall|k: int| 0 <= k < s.len() ==> !#[trigger] at_slot(s[k], sender, session, sequence),
        incoming_position(s, sender, session, sequence) matches Some(h)
            ==> exists|k: int| 0 <= k < s.len() && #[trigger] at_slot(s[k], sender, session, sequence) && s[k].hash == h,
    decreases s.len(),
{
    if s.len() > 0 {
        lemma_incoming_position(s.drop_first(), sender, session, sequence);
        if !at_slot(s[0], sender, session, sequence) {
            if incoming_position(s, sender, session, sequence) is None {
                assert forall|k: int| 0 <= k < s.len() implies !#[trigger] at_slot(s[k], sender, session, sequence) by {
                    if k > 0 {
                        assert(s[k] == s.drop_first()[k - 1]);
                    }
                }
            } else {
                let k = choose|k: int| 0 <= k < s.len() - 1 && #[trigger] at_slot(s.drop_first()[k], sender, session, sequence)
                    && s.drop_first()[k].hash == incoming_position(s, sender, session, sequence)->Some_0;
                assert(s[k + 1] == s.drop_first()[k]);
            }
        } else {
            assert(at_slot(s[0], sender, session, sequence));
        }
    }
}

proof fn lemma_distinct_insert(before: Seq<TrustedEvent>, j: int, t: TrustedEvent)
    requires
        0 <= j <= before.len(),
        positions_distinct(before),
        forall|k: int| 0 <= k < before.len()
            ==> !#[trigger] at_slot(before[k], t.event.event.sender, t.event.event.session_id, t.event.event.sequence),
    ensures
        positions_distinct(before.insert(j, t)),
{
    let s = before.insert(j, t);
    assert forall|a: int, b: int| 0 <= a < s.len() && 0 <= b < s.len() && a != b implies !#[trigger] same_slot(s[a], s[b]) by {
        let ia = if a < j { a } else { a - 1 };
        let ib = if b < j { b } else { b - 1 };
        if a == j {
            assert(s[b] == before[ib]);
            assert(!at_slot(before[ib], t.event.event.sender, t.event.event.session_id, t.event.event.sequence));
        } else if b == j {
            assert(s[a] == before[ia]);
            assert(!at_slot(before[ia], t.event.event.sender, t.event.event.session_id, t.event.event.sequence));
        } else {
            assert(s[a] == before[ia] && s[b] == before[ib]);
            assert(!same_slot(before[ia], before[ib]));
        }
    }
}

proof fn lemma_valid_encoding_under<S: TrustedStore>(store: S, space: SpaceId, raw: RawBatch, a: MembershipState, b: MembershipState, j: int)
    requires
        same_authority(a, b),
        valid_encoding(store, space, raw, a, j),
    ensures
        valid_encoding(store, space, raw, b, j),
{
    let e = choose|e: SignedEventV1| #[trigger] decodes_at(raw, j, e)
        && e.event.kind == KIND_EVENT_V1 && e.event.space == space
        && event_verify_result(e) is Ok && authorized_by(a, e.event) && store.accepts(raw.events@[j]@);
    let r = e.event.membership_revision as int;
    assert(a.snapshot_at(r).key_epoch == b.snapshot_at(r).key_epoch);
    assert(authorized_by(b, e.event));
}

/// Validates a batch of untrusted events against the store and commits it
/// atomically: every event must be canonical, of this space, correctly
/// signed, authorized by the membership at its revision, accepted by the
/// store's authentication, free of conflicts, and linked to its session
/// and parents. Nothing is stored unless everything holds.
#[verifier::spinoff_prover]
pub fn validate_batch<S: TrustedStore>(store: &mut S, expected_space: SpaceId, raw: RawBatch) -> (r: Result<VerifiedBatch, HistoryError>)
    ensures
        r is Err ==> *final(store) == *old(store),
        bounds_result(raw) matches Err(e) ==> r == Err::<VerifiedBatch, HistoryError>(e),
        bounds_result(raw) is Ok && raw.summary.space != expected_space
            ==> r == Err::<VerifiedBatch, HistoryError>(HistoryError::SpaceMismatch),
        r == Err::<VerifiedBatch, HistoryError>(HistoryError::MalformedEvent)
            ==> exists|j: int| 0 <= j < raw.events@.len() && #[trigger] undecodable(raw.events@[j]@),
        r == Err::<VerifiedBatch, HistoryError>(HistoryError::UnexpectedKind)
            ==> exists|j: int, e: SignedEventV1| #[trigger] decodes_at(raw, j, e) && e.event.kind != KIND_EVENT_V1,
        r == Err::<VerifiedBatch, HistoryError>(HistoryError::EventSpaceMismatch)
            ==> exists|j: int, e: SignedEventV1| #[trigger] decodes_at(raw, j, e) && e.event.space != expected_space,
        r == Err::<VerifiedBatch, HistoryError>(HistoryError::TooManyParents)
            ==> exists|j: int, e: SignedEventV1| #[trigger] decodes_at(raw, j, e)
                && e.event.parents@.len() > crate::protocol::event::MAX_EVENT_PARENTS,
        r == Err::<VerifiedBatch, HistoryError>(HistoryError::CiphertextTooLarge)
            ==> exists|j: int, e: SignedEventV1| #[trigger] decodes_at(raw, j, e) && e.event.ciphertext@.len() > MAX_CIPHERTEXT_BYTES,
        r matches Err(HistoryError::InvalidEvent(err))
            ==> exists|j: int, e: SignedEventV1| #[trigger] decodes_at(raw, j, e)
                && event_verify_result(e) == Err::<Seq<u8>, EventError>(err),
        r == Err::<VerifiedBatch, HistoryError>(HistoryError::DuplicateHashConflict) ==> exists|j: int, e: SignedEventV1|
            #[trigger] decodes_at(raw, j, e) && (
                (exists|h: [u8; 32]| h@ == event_hash(e.event) && #[trigger] old(store).holds(expected_space, h)
                    && old(store).encoded_of(expected_space, h) != raw.events@[j]@)
                || (exists|k: int, f: SignedEventV1| #[trigger] decodes_at(raw, k, f) && event_hash(f.event) == event_hash(e.event)
                    && raw.events@[k]@ != raw.events@[j]@)),
        r == Err::<VerifiedBatch, HistoryError>(HistoryError::SequenceConflictInBatch) ==> exists|j1: int, e1: SignedEventV1, j2: int, e2: SignedEventV1|
            #[trigger] decodes_at(raw, j1, e1) && #[trigger] decodes_at(raw, j2, e2)
            && e1.event.sender == e2.event.sender && e1.event.session_id == e2.event.session_id
            && e1.event.sequence == e2.event.sequence && event_hash(e1.event) != event_hash(e2.event),
        r == Err::<VerifiedBatch, HistoryError>(HistoryError::SequenceConflictInStore) ==> exists|j: int, e: SignedEventV1|
            #[trigger] decodes_at(raw, j, e)
            && (old(store).sequence_of(expected_space, e.event.sender, e.event.session_id, e.event.sequence) matches Some(h)
                && h@ != event_hash(e.event)),
        r == Err::<VerifiedBatch, HistoryError>(HistoryError::InvalidStoreFrontier)
            ==> !(old(store).head_of(expected_space).0.len() <= MAX_FRONTIER && hashes_sorted(old(store).head_of(expected_space).0)),
        r == Err::<VerifiedBatch, HistoryError>(HistoryError::MembershipScopeMismatch)
            ==> old(store).membership_of(expected_space).spec_scope() != membership_scope_spec(expected_space),
        r == Err::<VerifiedBatch, HistoryError>(HistoryError::UnknownMembershipRevision) ==> exists|j: int, e: SignedEventV1|
            #[trigger] decodes_at(raw, j, e)
            && e.event.membership_revision >= old(store).membership_of(expected_space).snapshot_count(),
        r == Err::<VerifiedBatch, HistoryError>(HistoryError::KeyEpochMismatch) ==> exists|j: int, e: SignedEventV1|
            #[trigger] decodes_at(raw, j, e)
            && (e.event.membership_revision as int) < old(store).membership_of(expected_space).snapshot_count()
            && old(store).membership_of(expected_space).snapshot_at(e.event.membership_revision as int).key_epoch != e.event.key_epoch,
        r == Err::<VerifiedBatch, HistoryError>(HistoryError::SenderNotMember) ==> exists|j: int, e: SignedEventV1|
            #[trigger] decodes_at(raw, j, e)
            && (e.event.membership_revision as int) < old(store).membership_of(expected_space).snapshot_count()
            && old(store).membership_of(expected_space).snapshot_at(e.event.membership_revision as int).key_epoch == e.event.key_epoch
            && !member_at_epoch_in(old(store).membership_of(expected_space).snapshot_at(e.event.membership_revision as int).members_view(),
                e.event.sender, e.event.key_epoch),
        r matches Err(e) && link_refusal(e) ==> exists|inc: Seq<TrustedEvent>|
            #[trigger] batch_incoming(*old(store), expected_space, raw, old(store).membership_of(expected_space), inc)
            && !links_hold(*old(store), expected_space, inc),
        r == Err::<VerifiedBatch, HistoryError>(HistoryError::Cycle) ==> exists|inc: Seq<TrustedEvent>|
            #[trigger] batch_incoming(*old(store), expected_space, raw, old(store).membership_of(expected_space), inc)
            && exists|done: Seq<usize>| #[trigger] stuck(inc, done),
        r == Err::<VerifiedBatch, HistoryError>(HistoryError::CountOverflow) ==> exists|inc: Seq<TrustedEvent>|
            #[trigger] batch_incoming(*old(store), expected_space, raw, old(store).membership_of(expected_space), inc)
            && old(store).head_of(expected_space).1 + inc.len() > u64::MAX,
        r == Err::<VerifiedBatch, HistoryError>(HistoryError::ResultingFrontierTooLarge) ==> exists|inc: Seq<TrustedEvent>, evs: Seq<TrustedEvent>|
            #[trigger] batch_incoming(*old(store), expected_space, raw, old(store).membership_of(expected_space), inc)
            && #[trigger] canonical_order(evs) && order::same_entries(evs, inc)
            && frontier_after(old(store).head_of(expected_space).0.to_set(), evs).len() > MAX_FRONTIER,
        r matches Ok(v) ==> batch_outcome(*old(store), expected_space, raw, v),
        r matches Ok(v) ==> final(store).head_of(expected_space) == (v.head.frontier@, v.head.event_count),
        r matches Ok(v) ==> forall|h: [u8; 32]| #[trigger] final(store).holds(expected_space, h)
            <==> (old(store).holds(expected_space, h) || exists|i: int| 0 <= i < v.events@.len() && v.events@[i].hash == h),
        r matches Ok(v) ==> final(store).head_commitment_of(expected_space) == v.head.commitment@,
        r matches Ok(v) ==> forall|i: int| 0 <= i < v.events@.len()
            ==> final(store).encoded_of(expected_space, #[trigger] v.events@[i].hash) == v.events@[i].encoded@
                && final(store).parents_of(expected_space, v.events@[i].hash) == v.events@[i].event.event.parents@,
        r matches Ok(v) ==> forall|h: [u8; 32]| #[trigger] old(store).holds(expected_space, h)
            ==> final(store).encoded_of(expected_space, h) == old(store).encoded_of(expected_space, h)
                && final(store).parents_of(expected_space, h) == old(store).parents_of(expected_space, h),
        r matches Ok(v) ==> old(store).commit_accepts(expected_space, stored_head(*old(store), expected_space), v.events@, head_triple(v.head)),
        r matches Err(e) ==> batch_refusal(e),
        batch_acceptable(*old(store), expected_space, raw) ==> r is Ok,
        r matches Err(e) ==> (bounds_refusal(e) ==> bounds_result(raw) == Err::<(), HistoryError>(e)),
        r == Err::<VerifiedBatch, HistoryError>(HistoryError::SpaceMismatch) ==> bounds_result(raw) is Ok && raw.summary.space != expected_space,
        r == Err::<VerifiedBatch, HistoryError>(HistoryError::InvalidStoreHead)
            ==> old(store).head_commitment_of(expected_space) != head_commitment_spec(old(store).head_of(expected_space).0, old(store).head_of(expected_space).1),
        r matches Err(HistoryError::Store(_)) ==> !old(store).reliable(),
        r matches Err(HistoryError::Authentication(_)) ==> exists|j: int, e: SignedEventV1|
            #[trigger] decodes_at(raw, j, e) && !old(store).accepts(raw.events@[j]@),
        r matches Err(HistoryError::CommitFailed(_)) ==> exists|v: VerifiedBatch| #[trigger] batch_outcome(*old(store), expected_space, raw, v)
            && !old(store).commit_accepts(expected_space, stored_head(*old(store), expected_space), v.events@, head_triple(v.head)),
{
    if let Err(e) = raw.validate_bounds() {
        return Err(e);
    }
    if !crate::protocol::id::space_eq(&raw.summary.space, &expected_space) {
        return Err(HistoryError::SpaceMismatch);
    }
    let old_head = match store.head(&expected_space) {
        Err(msg) => return Err(HistoryError::Store(msg)),
        Ok(h) => h,
    };
    let commitment = head_commitment(&old_head.frontier, old_head.event_count);
    if !hash_eq(&old_head.commitment, &commitment) {
        proof {
            if old_head.commitment@ == commitment@ {
                assert(old_head.commitment =~= commitment);
            }
        }
        return Err(HistoryError::InvalidStoreHead);
    }
    if !(old_head.frontier.len() <= MAX_FRONTIER && hashes_are_sorted(old_head.frontier.as_slice())) {
        return Err(HistoryError::InvalidStoreFrontier);
    }
    let membership = match store.membership(&expected_space) {
        Err(msg) => return Err(HistoryError::Store(msg)),
        Ok(m) => m,
    };
    let scope = membership.scope();
    if !crate::membership::scope_eq(&scope, &membership_scope(expected_space)) {
        return Err(HistoryError::MembershipScopeMismatch);
    }
    let mut incoming: Vec<TrustedEvent> = Vec::new();
    let mut i: usize = 0;
    while i < raw.events.len()
        invariant
            0 <= i <= raw.events@.len(),
            *store == *old(store),
            bounds_result(raw) is Ok,
            raw.summary.space == expected_space,
            same_authority(membership, store.membership_of(expected_space)),
            positions_distinct(incoming@),
            forall|j: int| 0 <= j < i ==> #[trigger] valid_encoding(*store, expected_space, raw, membership, j),
            hashes_sorted(incoming_hashes(incoming@)),
            forall|k: int| 0 <= k < incoming@.len() ==> #[trigger] accepted_event(*store, expected_space, raw, membership, incoming@[k]),
            forall|j: int| 0 <= j < i ==> #[trigger] settled_bytes(*store, expected_space, incoming@, raw.events@[j]@),
        decreases raw.events.len() - i,
    {
        let encoded = &raw.events[i];
        let event = match SignedEventV1::decode_canonical(encoded.as_slice()) {
            None => {
                assert(undecodable(raw.events@[i as int]@));
                return Err(HistoryError::MalformedEvent);
            },
            Some(e) => e,
        };
        assert(decodes_at(raw, i as int, event));
        if event.event.kind != KIND_EVENT_V1 {
            return Err(HistoryError::UnexpectedKind);
        }
        if !crate::protocol::id::space_eq(&event.event.space, &expected_space) {
            return Err(HistoryError::EventSpaceMismatch);
        }
        if event.event.parents.len() > crate::protocol::event::MAX_EVENT_PARENTS {
            return Err(HistoryError::TooManyParents);
        }
        if event.event.ciphertext.len() > MAX_CIPHERTEXT_BYTES {
            return Err(HistoryError::CiphertextTooLarge);
        }
        let hash = match event.verify() {
            Err(e) => return Err(HistoryError::InvalidEvent(e)),
            Ok(h) => h,
        };
        let snapshot = match membership.snapshot(event.event.membership_revision) {
            None => return Err(HistoryError::UnknownMembershipRevision),
            Some(s) => s,
        };
        if snapshot.key_epoch != event.event.key_epoch {
            return Err(HistoryError::KeyEpochMismatch);
        }
        if !snapshot.is_member_at_epoch(&event.event.sender, event.event.key_epoch) {
            return Err(HistoryError::SenderNotMember);
        }
        if let Err(msg) = store.authenticate(&event) {
            return Err(HistoryError::Authentication(msg));
        }
        assert(valid_encoding(*store, expected_space, raw, membership, i as int));
        match store.event(&expected_space, &hash) {
            Err(msg) => return Err(HistoryError::Store(msg)),
            Ok(Some(stored)) => {
                if !crate::wire::bytes_equal(stored.encoded.as_slice(), encoded.as_slice()) {
                    proof {
                        assert(store.holds(expected_space, hash));
                        assert(hash@ == event_hash(event.event));
                    }
                    return Err(HistoryError::DuplicateHashConflict);
                }
                proof {
                    assert forall|e: SignedEventV1| #[trigger] signed_event_bytes(e) == raw.events@[i as int]@
                        implies exists|h: [u8; 32]| h@ == event_hash(e.event) && store.holds(expected_space, h) by {
                        assert(same_signed_event(event, e));
                        assert(event_bytes(e.event) == event_bytes(event.event));
                        assert(hash@ == event_hash(e.event));
                    }
                    assert(settled_bytes(*store, expected_space, incoming@, raw.events@[i as int]@));
                }
                i += 1;
                continue;
            },
            Ok(None) => {},
        }
        match find_incoming(&incoming, &hash) {
            Some(j) => {
                if !crate::wire::bytes_equal(incoming[j].encoded.as_slice(), encoded.as_slice()) {
                    proof {
                        let t = incoming@[j as int];
                        assert(accepted_event(*store, expected_space, raw, membership, t));
                        let k = choose|k: int| 0 <= k < raw.events@.len() && #[trigger] raw.events@[k]@ == t.encoded@;
                        assert(decodes_at(raw, k, t.event));
                        assert(event_hash(t.event.event) == event_hash(event.event));
                    }
                    return Err(HistoryError::DuplicateHashConflict);
                }
                proof {
                    assert(incoming@[j as int].encoded@ == raw.events@[i as int]@);
                    assert(settled_bytes(*store, expected_space, incoming@, raw.events@[i as int]@));
                }
                i += 1;
                continue;
            },
            None => {},
        }
        let prior = position_of(&incoming, &event.event.sender, &event.event.session_id, event.event.sequence);
        proof {
            lemma_incoming_position(incoming@, event.event.sender, event.event.session_id, event.event.sequence);
        }
        if prior.is_some() {
            proof {
                let k = choose|k: int| 0 <= k < incoming@.len()
                    && #[trigger] at_slot(incoming@[k], event.event.sender, event.event.session_id, event.event.sequence)
                    && incoming@[k].hash == prior->Some_0;
                let t = incoming@[k];
                assert(accepted_event(*store, expected_space, raw, membership, t));
                let k2 = choose|k2: int| 0 <= k2 < raw.events@.len() && #[trigger] raw.events@[k2]@ == t.encoded@;
                assert(decodes_at(raw, k2, t.event));
                if event_hash(t.event.event) == event_hash(event.event) {
                    assert(t.hash =~= hash);
                    assert(in_incoming(incoming@, hash));
                }
            }
            return Err(HistoryError::SequenceConflictInBatch);
        }
        match store.sequence_hash(&expected_space, &event.event.sender, &event.event.session_id, event.event.sequence) {
            Err(msg) => return Err(HistoryError::Store(msg)),
            Ok(Some(other)) => {
                if !hash_eq(&other, &hash) {
                    proof {
                        if other@ == event_hash(event.event) {
                            assert(other =~= hash);
                        }
                    }
                    return Err(HistoryError::SequenceConflictInStore);
                }
            },
            Ok(None) => {},
        }
        let mut copy: Vec<u8> = Vec::new();
        push_raw(&mut copy, encoded.as_slice());
        let trusted = TrustedEvent { hash, encoded: copy, event };
        proof {
            assert(raw.events@[i as int]@ == trusted.encoded@);
            assert(accepted_event(*store, expected_space, raw, membership, trusted));
        }
        let ghost before = incoming@;
        insert_sorted(&mut incoming, trusted);
        proof {
            let j = choose|j: int| 0 <= j <= before.len() && incoming@ == #[trigger] before.insert(j, trusted);
            assert(incoming@[j] == trusted);
            lemma_distinct_insert(before, j, trusted);
            assert forall|k: int| 0 <= k < incoming@.len() implies #[trigger] accepted_event(*store, expected_space, raw, membership, incoming@[k]) by {
                if k < j {
                    assert(incoming@[k] == before[k]);
                } else if k > j {
                    assert(incoming@[k] == before[k - 1]);
                }
            }
            assert forall|jj: int| 0 <= jj < i + 1 implies #[trigger] settled_bytes(*store, expected_space, incoming@, raw.events@[jj]@) by {
                if jj == i {
                    assert(incoming@[j].encoded@ == raw.events@[jj]@);
                } else {
                    assert(settled_bytes(*store, expected_space, before, raw.events@[jj]@));
                    if exists|q: int| 0 <= q < before.len() && #[trigger] before[q].encoded@ == raw.events@[jj]@ {
                        let q = choose|q: int| 0 <= q < before.len() && #[trigger] before[q].encoded@ == raw.events@[jj]@;
                        if q < j {
                            assert(incoming@[q] == before[q]);
                        } else {
                            assert(incoming@[q + 1] == before[q]);
                        }
                    }
                }
            }
        }
        i += 1;
    }
    proof {
        assert(membership.spec_scope() == membership_scope_spec(expected_space));
        assert(batch_incoming(*store, expected_space, raw, membership, incoming@));
        assert forall|k: int| 0 <= k < incoming@.len() implies #[trigger] accepted_event(*store, expected_space, raw,
            store.membership_of(expected_space), incoming@[k]) by {
            lemma_accepted_under(*store, expected_space, raw, membership, store.membership_of(expected_space), incoming@[k]);
        }
        assert(batch_incoming(*store, expected_space, raw, store.membership_of(expected_space), incoming@));
    }
    if let Err(e) = validate_links(&*store, &expected_space, &incoming) {
        return Err(e);
    }
    let order = match topological_order(&*store, &expected_space, &incoming) {
        Err(e) => {
            proof {
                if e is Cycle {
                    let done = choose|done: Seq<usize>| #[trigger] stuck(incoming@, done);
                    assert(stuck(incoming@, done));
                }
            }
            return Err(e);
        },
        Ok(o) => o,
    };
    let mut events: Vec<TrustedEvent> = Vec::new();
    let mut k: usize = 0;
    while k < order.len()
        invariant
            0 <= k <= order@.len(),
            greedy_order(incoming@, order@),
            events@.len() == k,
            forall|q: int| 0 <= q < k ==> #[trigger] events@[q].hash == incoming@[order@[q] as int].hash
                && events@[q].encoded@ == incoming@[order@[q] as int].encoded@
                && same_event(events@[q].event, incoming@[order@[q] as int].event),
        decreases order.len() - k,
    {
        let idx = order[k];
        assert(idx < incoming@.len());
        let ghost before = events@;
        let c = incoming[idx].copy();
        events.push(c);
        proof {
            assert forall|q: int| 0 <= q < k + 1 implies #[trigger] events@[q].hash == incoming@[order@[q] as int].hash
                && events@[q].encoded@ == incoming@[order@[q] as int].encoded@
                && same_event(events@[q].event, incoming@[order@[q] as int].event) by {
                if q < k {
                    assert(events@[q] == before[q]);
                } else {
                    assert(events@[q] == c);
                }
            }
        }
        k += 1;
    }
    proof {
        lemma_sorted_distinct(incoming@);
        order::lemma_greedy_is_canonical(incoming@, order@, events@);
        assert forall|jj: int| 0 <= jj < raw.events@.len() implies #[trigger] settled_bytes(*store, expected_space, events@, raw.events@[jj]@) by {
            assert(settled_bytes(*store, expected_space, incoming@, raw.events@[jj]@));
            if exists|q: int| 0 <= q < incoming@.len() && #[trigger] incoming@[q].encoded@ == raw.events@[jj]@ {
                let q = choose|q: int| 0 <= q < incoming@.len() && #[trigger] incoming@[q].encoded@ == raw.events@[jj]@;
                order::lemma_order_covers(order@, q);
                let k = choose|k: int| 0 <= k < order@.len() && order@[k] == q;
                assert(events@[k].hash == incoming@[order@[k] as int].hash);
                assert(events@[k].encoded@ == raw.events@[jj]@);
            }
        }
        lemma_order_parents_first(*store, expected_space, incoming@, order@, events@);
        assert forall|q: int| 0 <= q < events@.len() implies #[trigger] accepted_event(*store, expected_space, raw, membership, events@[q]) by {
            let idx = order@[q] as int;
            assert(events@[q].hash == incoming@[idx].hash);
            assert(accepted_event(*store, expected_space, raw, membership, incoming@[idx]));
            lemma_accepted_copy(*store, expected_space, raw, membership, events@[q], incoming@[idx]);
        }
    }
    let mut frontier: Vec<EventHash> = copy_hashes(&old_head.frontier);
    proof {
        lemma_sorted_no_duplicates(frontier@);
    }
    let mut k: usize = 0;
    while k < events.len()
        invariant
            0 <= k <= events@.len(),
            frontier@.no_duplicates(),
            frontier@.to_set() == frontier_after(old_head.frontier@.to_set(), events@.take(k as int)),
        decreases events.len() - k,
    {
        let ghost pre = frontier@.to_set();
        insert_hash(&mut frontier, events[k].hash);
        let parents = &events[k].event.event.parents;
        let ghost mid = frontier@.to_set();
        let mut m: usize = 0;
        while m < parents.len()
            invariant
                0 <= m <= parents@.len(),
                frontier@.no_duplicates(),
                frontier@.to_set() == mid.difference(parents@.take(m as int).to_set()),
            decreases parents.len() - m,
        {
            let ghost f0 = frontier@.to_set();
            remove_hash(&mut frontier, &parents[m]);
            proof {
                let t0 = parents@.take(m as int);
                let t1 = parents@.take(m + 1);
                assert(t1 =~= t0.push(parents@[m as int]));
                assert forall|x: [u8; 32]| t1.contains(x) <==> (t0.contains(x) || x == parents@[m as int]) by {
                    if t1.contains(x) {
                        let a = choose|a: int| 0 <= a < t1.len() && t1[a] == x;
                        if a < m {
                            assert(t0[a] == x);
                        }
                    }
                    if t0.contains(x) {
                        let a = choose|a: int| 0 <= a < t0.len() && t0[a] == x;
                        assert(t1[a] == x);
                    }
                    if x == parents@[m as int] {
                        assert(t1[m as int] == x);
                    }
                }
                assert(t1.to_set() =~= t0.to_set().insert(parents@[m as int]));
                assert(frontier@.to_set() =~= mid.difference(t1.to_set()));
            }
            m += 1;
        }
        proof {
            assert(parents@.take(parents@.len() as int) =~= parents@);
            assert(events@.take(k + 1).drop_last() =~= events@.take(k as int));
            assert(events@.take(k + 1).last() == events@[k as int]);
        }
        k += 1;
    }
    assert(events@.take(events@.len() as int) =~= events@);
    proof {
        assert forall|q: int| 0 <= q < events@.len() implies #[trigger] order::listed_with(incoming@, events@[q]) by {
            let j = order@[q] as int;
            assert(incoming@[j].hash == events@[q].hash);
        }
        assert forall|j: int| 0 <= j < incoming@.len() implies #[trigger] order::listed_with(events@, incoming@[j]) by {
            order::lemma_order_covers(order@, j);
            let q = choose|q: int| 0 <= q < order@.len() && order@[q] == j;
            assert(events@[q].hash == incoming@[j].hash);
        }
        assert(order::same_entries(events@, incoming@));
    }
    if frontier.len() > MAX_FRONTIER {
        proof {
            frontier@.unique_seq_to_set();
        }
        return Err(HistoryError::ResultingFrontierTooLarge);
    }
    let added = events.len() as u64;
    if old_head.event_count > u64::MAX - added {
        return Err(HistoryError::CountOverflow);
    }
    let ghost fr = frontier@;
    let new_head = match HistoryHead::new(frontier, old_head.event_count + added) {
        Err(e) => {
            proof {
                let s = choose|s: Seq<[u8; 32]>| hashes_sorted(s) && #[trigger] same_elements(s, fr) && s.len() > MAX_FRONTIER;
                lemma_sorted_no_duplicates(s);
                assert(s.to_set() =~= fr.to_set());
                s.unique_seq_to_set();
                fr.unique_seq_to_set();
            }
            return Err(e);
        },
        Ok(h) => h,
    };
    let ghost vb = VerifiedBatch { events: events, head: new_head };
    proof {
        assert(new_head.frontier@.to_set() =~= fr.to_set());
        assert forall|q: int| 0 <= q < vb.events@.len() implies #[trigger] accepted_event(*old(store), expected_space, raw,
            old(store).membership_of(expected_space), vb.events@[q]) by {
            assert(accepted_event(*store, expected_space, raw, membership, vb.events@[q]));
            lemma_accepted_under(*store, expected_space, raw, membership, old(store).membership_of(expected_space), vb.events@[q]);
        }
        assert forall|j: int| 0 <= j < raw.events@.len() implies #[trigger] valid_encoding(*old(store), expected_space, raw,
            old(store).membership_of(expected_space), j) by {
            lemma_valid_encoding_under(*store, expected_space, raw, membership, old(store).membership_of(expected_space), j);
        }
        assert forall|a: int, b: int| 0 <= a < vb.events@.len() && 0 <= b < vb.events@.len() && a != b
            implies !#[trigger] same_slot(vb.events@[a], vb.events@[b]) by {
            let ia = order@[a] as int;
            let ib = order@[b] as int;
            if a < b {
                assert(order@[a] != order@[b]);
            } else {
                assert(order@[b] != order@[a]);
            }
            assert(!same_slot(incoming@[ia], incoming@[ib]));
        }
        assert(batch_incoming(*old(store), expected_space, raw, old(store).membership_of(expected_space), incoming@));
        assert(batch_outcome(*old(store), expected_space, raw, vb));
    }
    match store.commit(&expected_space, &old_head, events.as_slice(), &new_head) {
        Err(msg) => return Err(HistoryError::CommitFailed(msg)),
        Ok(()) => {},
    }
    let v = VerifiedBatch { events, head: new_head };
    assert(v == vb);
    Ok(v)
}

pub proof fn lemma_sorted_no_duplicates(s: Seq<[u8; 32]>)
    requires
        hashes_sorted(s),
    ensures
        s.no_duplicates(),
{
    assert forall|a: int, b: int| 0 <= a < s.len() && 0 <= b < s.len() && a != b implies s[a] != s[b] by {
        if a < b {
            assert(crate::keys::bytes_lt(s[a]@, s[b]@));
        } else {
            assert(crate::keys::bytes_lt(s[b]@, s[a]@));
        }
        if s[a] == s[b] {
            crate::keys::lemma_bytes_lt_irreflexive(s[a]@);
        }
    }
}

/// The parents still to be queued from supplied events not yet seen.
pub open spec fn pending_parents(supplied: Seq<TrustedEvent>, seen: Set<[u8; 32]>) -> nat
    decreases supplied.len(),
{
    if supplied.len() == 0 {
        0
    } else {
        pending_parents(supplied.drop_last(), seen) + if seen.contains(supplied.last().hash) {
            0
        } else {
            supplied.last().event.event.parents@.len()
        }
    }
}

pub proof fn lemma_pending_parents_shrink(supplied: Seq<TrustedEvent>, seen: Set<[u8; 32]>, h: [u8; 32], i: int)
    requires
        !seen.contains(h),
        0 <= i < supplied.len(),
        supplied[i].hash == h,
    ensures
        pending_parents(supplied, seen.insert(h)) + supplied[i].event.event.parents@.len() <= pending_parents(supplied, seen),
    decreases supplied.len(),
{
    lemma_pending_parents_insert(supplied.drop_last(), seen, h);
    if i < supplied.len() - 1 {
        assert(supplied.drop_last()[i] == supplied[i]);
        lemma_pending_parents_shrink(supplied.drop_last(), seen, h, i);
    }
}

pub proof fn lemma_pending_parents_insert(supplied: Seq<TrustedEvent>, seen: Set<[u8; 32]>, h: [u8; 32])
    ensures
        pending_parents(supplied, seen.insert(h)) <= pending_parents(supplied, seen),
    decreases supplied.len(),
{
    if supplied.len() > 0 {
        lemma_pending_parents_insert(supplied.drop_last(), seen, h);
    }
}

/// The position of the last supplied event with hash `h`.
pub open spec fn supplied_index(supplied: Seq<TrustedEvent>, h: [u8; 32]) -> Option<int>
    decreases supplied.len(),
{
    if supplied.len() == 0 {
        None
    } else if supplied.last().hash == h {
        Some(supplied.len() - 1)
    } else {
        supplied_index(supplied.drop_last(), h)
    }
}

proof fn lemma_supplied_index_bounds(supplied: Seq<TrustedEvent>, h: [u8; 32])
    ensures
        supplied_index(supplied, h) matches Some(i) ==> 0 <= i < supplied.len() && supplied[i].hash == h,
        supplied_index(supplied, h) is None ==> forall|i: int| 0 <= i < supplied.len() ==> #[trigger] supplied[i].hash != h,
    decreases supplied.len(),
{
    if supplied.len() > 0 {
        lemma_supplied_index_bounds(supplied.drop_last(), h);
        if supplied.last().hash != h {
            assert forall|i: int| 0 <= i < supplied.len() - 1 implies #[trigger] supplied[i] == supplied.drop_last()[i] by {}
        }
    }
}

/// A walk from `a` to its parent `b` passes through a supplied event that
/// the store does not hold.
pub open spec fn steps_to<S: TrustedStore>(store: S, space: SpaceId, supplied: Seq<TrustedEvent>, a: [u8; 32], b: [u8; 32]) -> bool {
    &&& !store.holds(space, a)
    &&& supplied_index(supplied, a) matches Some(i) && supplied[i].event.event.parents@.contains(b)
}

/// `path` starts at an advertised hash and steps from each hash to a parent
/// through supplied events the store lacks.
pub open spec fn walk<S: TrustedStore>(store: S, space: SpaceId, advertised: Seq<[u8; 32]>, supplied: Seq<TrustedEvent>, path: Seq<[u8; 32]>) -> bool {
    &&& path.len() > 0
    &&& advertised.contains(path[0])
    &&& forall|i: int| 0 <= i < path.len() - 1 ==> #[trigger] steps_to(store, space, supplied, path[i], path[i + 1])
}

/// Some walk from the advertised hashes ends at `h`.
pub open spec fn reaches<S: TrustedStore>(store: S, space: SpaceId, advertised: Seq<[u8; 32]>, supplied: Seq<TrustedEvent>, h: [u8; 32]) -> bool {
    exists|path: Seq<[u8; 32]>| #[trigger] walk(store, space, advertised, supplied, path) && path.last() == h
}

/// A hash that is neither stored nor supplied.
pub open spec fn absent<S: TrustedStore>(store: S, space: SpaceId, supplied: Seq<TrustedEvent>, h: [u8; 32]) -> bool {
    !store.holds(space, h) && supplied_index(supplied, h) is None
}

proof fn lemma_reach_start<S: TrustedStore>(store: S, space: SpaceId, advertised: Seq<[u8; 32]>, supplied: Seq<TrustedEvent>, j: int)
    requires
        0 <= j < advertised.len(),
    ensures
        reaches(store, space, advertised, supplied, advertised[j]),
{
    let path = seq![advertised[j]];
    assert(walk(store, space, advertised, supplied, path));
}

proof fn lemma_reach_step<S: TrustedStore>(store: S, space: SpaceId, advertised: Seq<[u8; 32]>, supplied: Seq<TrustedEvent>, a: [u8; 32], b: [u8; 32])
    requires
        reaches(store, space, advertised, supplied, a),
        steps_to(store, space, supplied, a, b),
    ensures
        reaches(store, space, advertised, supplied, b),
{
    let path = choose|path: Seq<[u8; 32]>| #[trigger] walk(store, space, advertised, supplied, path) && path.last() == a;
    let next = path.push(b);
    assert forall|i: int| 0 <= i < next.len() - 1 implies #[trigger] steps_to(store, space, supplied, next[i], next[i + 1]) by {
        if i < path.len() - 1 {
            assert(next[i] == path[i] && next[i + 1] == path[i + 1]);
        }
    }
    assert(walk(store, space, advertised, supplied, next));
}

/// A set holding the advertised hashes and closed under the steps of a walk
/// holds every hash a walk reaches.
proof fn lemma_walk_stays<S: TrustedStore>(store: S, space: SpaceId, advertised: Seq<[u8; 32]>, supplied: Seq<TrustedEvent>, v: Set<[u8; 32]>, path: Seq<[u8; 32]>)
    requires
        walk(store, space, advertised, supplied, path),
        forall|x: [u8; 32]| advertised.contains(x) ==> v.contains(x),
        forall|a: [u8; 32], b: [u8; 32]| #![trigger steps_to(store, space, supplied, a, b), v.contains(a)]
            v.contains(a) && steps_to(store, space, supplied, a, b) ==> v.contains(b),
    ensures
        v.contains(path.last()),
    decreases path.len(),
{
    if path.len() > 1 {
        let prev = path.drop_last();
        assert forall|i: int| 0 <= i < prev.len() - 1 implies #[trigger] steps_to(store, space, supplied, prev[i], prev[i + 1]) by {
            assert(steps_to(store, space, supplied, path[i], path[i + 1]));
        }
        assert(walk(store, space, advertised, supplied, prev));
        lemma_walk_stays(store, space, advertised, supplied, v, prev);
        let i = path.len() - 2;
        assert(steps_to(store, space, supplied, path[i], path[i + 1]));
        assert(path[i + 1] == path.last());
    }
}

/// The last supplied event with hash `h`.
fn find_supplied(supplied: &[TrustedEvent], h: &EventHash) -> (r: Option<usize>)
    ensures
        match r {
            Some(i) => supplied_index(supplied@, *h) == Some(i as int),
            None => supplied_index(supplied@, *h) is None,
        },
        r matches Some(i) ==> i < supplied@.len() && supplied@[i as int].hash == *h,
{
    let mut i: usize = supplied.len();
    assert(supplied@.take(i as int) =~= supplied@);
    while i > 0
        invariant
            0 <= i <= supplied@.len(),
            supplied_index(supplied@, *h) == supplied_index(supplied@.take(i as int), *h),
        decreases i,
    {
        let ghost t = supplied@.take(i as int);
        assert(t.drop_last() =~= supplied@.take(i - 1));
        assert(t.last() == supplied@[i - 1]);
        if hash_eq(&supplied[i - 1].hash, h) {
            return Some(i - 1);
        }
        i -= 1;
    }
    None
}

/// Discovers absent ancestors, starting from advertised heads and walking
/// the parents of supplied events; the stored and the supplied are not
/// missing. Stops once `max_hashes` are found. The result is sorted.
#[verifier::spinoff_prover]
pub fn missing_parents<S: TrustedStore>(
    store: &S,
    space: &SpaceId,
    advertised: Vec<EventHash>,
    raw_events: &[TrustedEvent],
    max_hashes: usize,
) -> (r: Result<Vec<EventHash>, HistoryError>)
    ensures
        max_hashes > MAX_HISTORY_HASHES ==> r == Err::<Vec<EventHash>, HistoryError>(HistoryError::PageLimitTooLarge),
        r matches Err(e) ==> (e is PageLimitTooLarge && max_hashes > MAX_HISTORY_HASHES) || (e is Store && !store.reliable()),
        r matches Ok(m) ==> hashes_sorted(m@) && (max_hashes > 0 ==> m@.len() <= max_hashes),
        r matches Ok(m) ==> forall|k: int| 0 <= k < m@.len()
            ==> reaches(*store, *space, advertised@, raw_events@, #[trigger] m@[k]) && absent(*store, *space, raw_events@, m@[k]),
        r matches Ok(m) ==> forall|k: int, i: int| 0 <= k < m@.len() && 0 <= i < raw_events@.len()
            ==> #[trigger] raw_events@[i].hash != #[trigger] m@[k],
        r matches Ok(m) ==> ((max_hashes == 0 || m@.len() < max_hashes) ==> forall|h: [u8; 32]|
            #![trigger reaches(*store, *space, advertised@, raw_events@, h)]
            reaches(*store, *space, advertised@, raw_events@, h) && absent(*store, *space, raw_events@, h) ==> m@.contains(h)),
{
    if max_hashes > MAX_HISTORY_HASHES {
        return Err(HistoryError::PageLimitTooLarge);
    }
    let ghost adv = advertised@;
    let ghost sup = raw_events@;
    let mut queue: Vec<EventHash> = advertised;
    let mut head: usize = 0;
    let mut seen: Vec<EventHash> = Vec::new();
    let mut missing: Vec<EventHash> = Vec::new();
    proof {
        assert forall|j: int| 0 <= j < queue@.len() implies #[trigger] reaches(*store, *space, adv, sup, queue@[j]) by {
            lemma_reach_start(*store, *space, adv, sup, j);
        }
    }
    while head < queue.len()
        invariant_except_break
            max_hashes > 0 ==> missing@.len() < max_hashes,
        invariant
            0 <= head <= queue@.len(),
            adv == advertised@,
            sup == raw_events@,
            max_hashes <= MAX_HISTORY_HASHES,
            seen@.no_duplicates(),
            missing@.no_duplicates(),
            max_hashes > 0 ==> missing@.len() <= max_hashes,
            adv.len() <= queue@.len(),
            forall|j: int| 0 <= j < adv.len() ==> #[trigger] queue@[j] == adv[j],
            forall|j: int| 0 <= j < queue@.len() ==> #[trigger] reaches(*store, *space, adv, sup, queue@[j]),
            forall|j: int| 0 <= j < head ==> seen@.contains(#[trigger] queue@[j]),
            forall|a: [u8; 32], b: [u8; 32]| #![trigger steps_to(*store, *space, sup, a, b), seen@.contains(a)]
                seen@.contains(a) && steps_to(*store, *space, sup, a, b) ==> queue@.contains(b),
            forall|x: [u8; 32]| #[trigger] seen@.contains(x) && absent(*store, *space, sup, x) ==> missing@.contains(x),
            forall|x: [u8; 32]| #[trigger] missing@.contains(x) ==> reaches(*store, *space, adv, sup, x) && absent(*store, *space, sup, x),
        ensures
            head == queue@.len() || (max_hashes > 0 && missing@.len() == max_hashes),
        decreases pending_parents(raw_events@, seen@.to_set()) + (queue@.len() - head),
    {
        let h = queue[head];
        let ghost s0 = seen@;
        let ghost m0 = missing@;
        let ghost q0 = queue@;
        let ghost at = head as int;
        assert(reaches(*store, *space, adv, sup, q0[at]));
        head += 1;
        if hashes_contain(&seen, &h) {
            continue;
        }
        let ghost seen_before = seen@.to_set();
        insert_hash(&mut seen, h);
        proof {
            lemma_pending_parents_insert(raw_events@, seen_before, h);
            assert forall|x: [u8; 32]| #[trigger] seen@.contains(x) <==> (s0.contains(x) || x == h) by {
                assert(seen@.to_set().contains(x) <==> seen_before.insert(h).contains(x));
            }
        }
        let found = match store.event(space, &h) {
            Err(msg) => return Err(HistoryError::Store(msg)),
            Ok(o) => o.is_some(),
        };
        if found {
            continue;
        }
        match find_supplied(raw_events, &h) {
            Some(i) => {
                proof {
                    lemma_pending_parents_shrink(raw_events@, seen_before, h, i as int);
                }
                let parents = &raw_events[i].event.event.parents;
                let ghost qlen = queue@.len();
                let ghost q1 = queue@;
                let mut k: usize = 0;
                while k < parents.len()
                    invariant
                        0 <= k <= parents@.len(),
                        parents@ == sup[i as int].event.event.parents@,
                        supplied_index(sup, h) == Some(i as int),
                        !store.holds(*space, h),
                        reaches(*store, *space, adv, sup, h),
                        sup == raw_events@,
                        queue@.len() == qlen + k,
                        q1.len() == qlen,
                        forall|j: int| 0 <= j < qlen ==> #[trigger] queue@[j] == q1[j],
                        forall|kk: int| 0 <= kk < k ==> #[trigger] queue@[qlen + kk] == parents@[kk],
                        forall|j: int| 0 <= j < queue@.len() ==> #[trigger] reaches(*store, *space, adv, sup, queue@[j]),
                    decreases parents.len() - k,
                {
                    proof {
                        assert(parents@.contains(parents@[k as int]));
                        assert(steps_to(*store, *space, sup, h, parents@[k as int]));
                        lemma_reach_step(*store, *space, adv, sup, h, parents@[k as int]);
                    }
                    let ghost qb = queue@;
                    queue.push(parents[k]);
                    proof {
                        assert forall|j: int| 0 <= j < queue@.len() implies #[trigger] reaches(*store, *space, adv, sup, queue@[j]) by {
                            if j < qb.len() {
                                assert(queue@[j] == qb[j]);
                            }
                        }
                        assert forall|j: int| 0 <= j < qlen implies #[trigger] queue@[j] == q1[j] by {
                            assert(queue@[j] == qb[j]);
                        }
                        assert forall|kk: int| 0 <= kk < k + 1 implies #[trigger] queue@[qlen + kk] == parents@[kk] by {
                            if kk < k {
                                assert(queue@[qlen + kk] == qb[qlen + kk]);
                            }
                        }
                    }
                    k += 1;
                }
                proof {
                    assert forall|x: [u8; 32]| q1.contains(x) implies queue@.contains(x) by {
                        let j = choose|j: int| 0 <= j < q1.len() && q1[j] == x;
                        assert(queue@[j] == x);
                    }
                    assert forall|a: [u8; 32], b: [u8; 32]| #![trigger steps_to(*store, *space, sup, a, b), seen@.contains(a)]
                        seen@.contains(a) && steps_to(*store, *space, sup, a, b) implies queue@.contains(b) by {
                        if a == h {
                            let kk = choose|kk: int| 0 <= kk < parents@.len() && parents@[kk] == b;
                            assert(queue@[qlen + kk] == b);
                        } else {
                            assert(s0.contains(a));
                            assert(q0.contains(b));
                        }
                    }
                    assert forall|j: int| 0 <= j < head implies seen@.contains(#[trigger] queue@[j]) by {
                        assert(queue@[j] == q1[j]);
                        if j < at {
                            assert(s0.contains(q0[j]));
                        }
                    }
                    assert forall|j: int| 0 <= j < adv.len() implies #[trigger] queue@[j] == adv[j] by {
                        assert(queue@[j] == q1[j]);
                    }
                    assert forall|x: [u8; 32]| #[trigger] seen@.contains(x) && absent(*store, *space, sup, x) implies missing@.contains(x) by {
                        if x != h {
                            assert(s0.contains(x));
                        }
                    }
                }
            },
            None => {
                insert_hash(&mut missing, h);
                proof {
                    assert(absent(*store, *space, sup, h));
                    assert forall|x: [u8; 32]| #[trigger] missing@.contains(x) <==> (m0.contains(x) || x == h) by {
                        assert(missing@.to_set().contains(x) <==> m0.to_set().insert(h).contains(x));
                    }
                    if m0.contains(h) {
                        assert(missing@.to_set() =~= m0.to_set());
                    }
                    missing@.unique_seq_to_set();
                    m0.unique_seq_to_set();
                    assert forall|x: [u8; 32]| #[trigger] seen@.contains(x) && absent(*store, *space, sup, x) implies missing@.contains(x) by {
                        if x != h {
                            assert(s0.contains(x));
                        }
                    }
                    assert forall|a: [u8; 32], b: [u8; 32]| #![trigger steps_to(*store, *space, sup, a, b), seen@.contains(a)]
                        seen@.contains(a) && steps_to(*store, *space, sup, a, b) implies queue@.contains(b) by {
                        if a != h {
                            assert(s0.contains(a));
                        }
                    }
                    assert forall|j: int| 0 <= j < head implies seen@.contains(#[trigger] queue@[j]) by {
                        if j < at {
                            assert(s0.contains(q0[j]));
                        }
                    }
                }
                if missing.len() == max_hashes {
                    break;
                }
            },
        }
    }
    let out = sort_dedup_hashes(&missing);
    proof {
        assert forall|k: int| 0 <= k < out@.len() implies reaches(*store, *space, advertised@, raw_events@, #[trigger] out@[k])
            && absent(*store, *space, raw_events@, out@[k]) by {
            assert(out@.contains(out@[k]));
            assert(missing@.contains(out@[k]));
        }
        assert forall|k: int, i: int| 0 <= k < out@.len() && 0 <= i < raw_events@.len()
            implies #[trigger] raw_events@[i].hash != #[trigger] out@[k] by {
            assert(out@.contains(out@[k]));
            assert(missing@.contains(out@[k]));
            lemma_supplied_index_bounds(raw_events@, out@[k]);
        }
        lemma_sorted_no_duplicates(out@);
        assert(out@.to_set() =~= missing@.to_set());
        out@.unique_seq_to_set();
        missing@.unique_seq_to_set();
        if max_hashes == 0 || out@.len() < max_hashes {
            assert(head == queue@.len());
            let v = seen@.to_set();
            assert forall|x: [u8; 32]| adv.contains(x) implies v.contains(x) by {
                let j = choose|j: int| 0 <= j < adv.len() && adv[j] == x;
                assert(queue@[j] == adv[j]);
                assert(seen@.contains(queue@[j]));
            }
            assert forall|a: [u8; 32], b: [u8; 32]| #![trigger steps_to(*store, *space, sup, a, b), v.contains(a)]
                v.contains(a) && steps_to(*store, *space, sup, a, b) implies v.contains(b) by {
                assert(seen@.contains(a));
                assert(queue@.contains(b));
                let j = choose|j: int| 0 <= j < queue@.len() && queue@[j] == b;
                assert(seen@.contains(queue@[j]));
            }
            assert forall|h: [u8; 32]| #![trigger reaches(*store, *space, advertised@, raw_events@, h)]
                reaches(*store, *space, advertised@, raw_events@, h) && absent(*store, *space, raw_events@, h) implies out@.contains(h) by {
                let path = choose|path: Seq<[u8; 32]>| #[trigger] walk(*store, *space, adv, sup, path) && path.last() == h;
                lemma_walk_stays(*store, *space, adv, sup, v, path);
                assert(seen@.contains(h));
                assert(missing@.contains(h));
            }
        }
    }
    Ok(out)
}

pub open spec fn pair_hashes(s: Seq<(EventHash, Vec<u8>)>) -> Seq<[u8; 32]> {
    s.map_values(|p: (EventHash, Vec<u8>)| p.0)
}

/// Inserts a selected event where its hash keeps the selection sorted.
fn insert_selected(selected: &mut Vec<(EventHash, Vec<u8>)>, h: EventHash, encoded: Vec<u8>)
    requires
        hashes_sorted(pair_hashes(old(selected)@)),
        !pair_hashes(old(selected)@).contains(h),
    ensures
        hashes_sorted(pair_hashes(final(selected)@)),
        exists|j: int| 0 <= j <= old(selected)@.len() && final(selected)@ == #[trigger] old(selected)@.insert(j, (h, encoded)),
{
    let ghost hs = pair_hashes(selected@);
    let mut j: usize = 0;
    while j < selected.len() && crate::keys::bytes32_lt(&selected[j].0, &h)
        invariant
            0 <= j <= selected@.len(),
            hs == pair_hashes(selected@),
            forall|k: int| 0 <= k < j ==> #[trigger] crate::keys::bytes_lt(hs[k]@, h@),
        decreases selected.len() - j,
    {
        j += 1;
    }
    proof {
        if j < selected@.len() {
            crate::keys::lemma_bytes_lt_total(hs[j as int]@, h@);
            if hs[j as int]@ == h@ {
                assert(hs[j as int] =~= h);
                assert(hs.contains(h));
            }
            assert(crate::keys::bytes_lt(h@, hs[j as int]@));
        }
    }
    let ghost before = selected@;
    let ghost ev = encoded;
    selected.insert(j, (h, encoded));
    proof {
        let nh = pair_hashes(selected@);
        assert(nh =~= hs.insert(j as int, h));
        assert forall|a: int, b: int| 0 <= a < b < nh.len() implies #[trigger] crate::keys::bytes_lt(nh[a]@, nh[b]@) by {
            if b < j {
                assert(nh[a] == hs[a] && nh[b] == hs[b]);
            } else if b == j {
                assert(nh[a] == hs[a]);
            } else if a == j {
                assert(nh[b] == hs[b - 1]);
                if b - 1 > j {
                    assert(crate::keys::bytes_lt(hs[j as int]@, hs[b - 1]@));
                    crate::keys::lemma_bytes_lt_transitive(h@, hs[j as int]@, hs[b - 1]@);
                }
            } else if a < j {
                assert(nh[a] == hs[a] && nh[b] == hs[b - 1]);
            } else {
                assert(nh[a] == hs[a - 1] && nh[b] == hs[b - 1]);
            }
        }
        assert(selected@ == before.insert(j as int, (h, ev)));
    }
}

/// Where a page walk starts: the wanted hashes, or else the head's frontier.
pub open spec fn page_start<S: TrustedStore>(store: S, request: HistoryRequest) -> Seq<[u8; 32]> {
    if request.want@.len() > 0 {
        request.want@
    } else {
        store.head_of(request.space).0
    }
}

/// A page walk steps from a stored event the requester lacks to a parent.
pub open spec fn page_step<S: TrustedStore>(store: S, request: HistoryRequest, a: [u8; 32], b: [u8; 32]) -> bool {
    &&& store.holds(request.space, a)
    &&& !request.have@.contains(a)
    &&& store.parents_of(request.space, a).contains(b)
}

pub open spec fn page_walk<S: TrustedStore>(store: S, request: HistoryRequest, path: Seq<[u8; 32]>) -> bool {
    &&& path.len() > 0
    &&& page_start(store, request).contains(path[0])
    &&& forall|i: int| 0 <= i < path.len() - 1 ==> #[trigger] page_step(store, request, path[i], path[i + 1])
}

/// Some page walk ends at `h`.
pub open spec fn page_reaches<S: TrustedStore>(store: S, request: HistoryRequest, h: [u8; 32]) -> bool {
    exists|path: Seq<[u8; 32]>| #[trigger] page_walk(store, request, path) && path.last() == h
}

proof fn lemma_page_start<S: TrustedStore>(store: S, request: HistoryRequest, j: int)
    requires
        0 <= j < page_start(store, request).len(),
    ensures
        page_reaches(store, request, page_start(store, request)[j]),
{
    let path = seq![page_start(store, request)[j]];
    assert(page_walk(store, request, path));
}

proof fn lemma_page_step<S: TrustedStore>(store: S, request: HistoryRequest, a: [u8; 32], b: [u8; 32])
    requires
        page_reaches(store, request, a),
        page_step(store, request, a, b),
    ensures
        page_reaches(store, request, b),
{
    let path = choose|path: Seq<[u8; 32]>| #[trigger] page_walk(store, request, path) && path.last() == a;
    let next = path.push(b);
    assert forall|i: int| 0 <= i < next.len() - 1 implies #[trigger] page_step(store, request, next[i], next[i + 1]) by {
        if i < path.len() - 1 {
            assert(next[i] == path[i] && next[i + 1] == path[i + 1]);
        }
    }
    assert(page_walk(store, request, next));
}

/// A set holding the start and closed under page steps holds every hash a
/// page walk reaches.
proof fn lemma_page_walk_stays<S: TrustedStore>(store: S, request: HistoryRequest, v: Set<[u8; 32]>, path: Seq<[u8; 32]>)
    requires
        page_walk(store, request, path),
        forall|x: [u8; 32]| page_start(store, request).contains(x) ==> v.contains(x),
        forall|a: [u8; 32], b: [u8; 32]| #![trigger page_step(store, request, a, b), v.contains(a)]
            v.contains(a) && page_step(store, request, a, b) ==> v.contains(b),
    ensures
        v.contains(path.last()),
    decreases path.len(),
{
    if path.len() > 1 {
        let prev = path.drop_last();
        assert forall|i: int| 0 <= i < prev.len() - 1 implies #[trigger] page_step(store, request, prev[i], prev[i + 1]) by {
            assert(page_step(store, request, path[i], path[i + 1]));
        }
        assert(page_walk(store, request, prev));
        lemma_page_walk_stays(store, request, v, prev);
        let i = path.len() - 2;
        assert(page_step(store, request, path[i], path[i + 1]));
        assert(path[i + 1] == path.last());
    }
}

/// A stored event of the space that the requester does not have.
pub open spec fn servable<S: TrustedStore>(store: S, request: HistoryRequest, h: [u8; 32], encoded: Seq<u8>) -> bool {
    &&& store.holds(request.space, h)
    &&& store.encoded_of(request.space, h) == encoded
    &&& !request.have@.contains(h)
}

/// The breadth-first walk that fills a page: the queue of hashes to visit
/// and how far it has been taken, the hashes seen, the hashes selected and
/// their count and bytes, and the cursor once a cap is reached.
pub struct PageWalk {
    pub queue: Seq<[u8; 32]>,
    pub head: nat,
    pub seen: Set<[u8; 32]>,
    pub selected: Set<[u8; 32]>,
    pub count: nat,
    pub bytes: nat,
    pub cursor: Option<[u8; 32]>,
}

/// The walk before its first step: the wanted hashes, or the frontier.
pub open spec fn page_walk_start<S: TrustedStore>(store: S, request: HistoryRequest) -> PageWalk {
    PageWalk {
        queue: page_start(store, request),
        head: 0,
        seen: Set::empty(),
        selected: Set::empty(),
        count: 0,
        bytes: 0,
        cursor: None,
    }
}

/// The walk has stopped: at a cap, or with its queue exhausted.
pub open spec fn page_walk_done(w: PageWalk) -> bool {
    w.cursor is Some || w.head >= w.queue.len()
}

/// One step of the walk: take the next queued hash; skip it when seen or
/// held by the requester, or when the store lacks it; stop there when a
/// cap would be passed; else select it and queue its parents.
pub open spec fn page_walk_next<S: TrustedStore>(store: S, request: HistoryRequest, w: PageWalk) -> PageWalk {
    if page_walk_done(w) {
        w
    } else {
        let h = w.queue[w.head as int];
        let len = store.encoded_of(request.space, h).len();
        if w.seen.contains(h) || request.have@.contains(h) {
            PageWalk { queue: w.queue, head: w.head + 1, seen: w.seen, selected: w.selected, count: w.count, bytes: w.bytes, cursor: w.cursor }
        } else if !store.holds(request.space, h) {
            PageWalk { queue: w.queue, head: w.head + 1, seen: w.seen.insert(h), selected: w.selected, count: w.count, bytes: w.bytes, cursor: w.cursor }
        } else if w.count == request.max_events || w.bytes + len > request.max_bytes {
            PageWalk { queue: w.queue, head: w.head + 1, seen: w.seen.insert(h), selected: w.selected, count: w.count, bytes: w.bytes, cursor: Some(h) }
        } else {
            PageWalk {
                queue: w.queue + store.parents_of(request.space, h),
                head: w.head + 1,
                seen: w.seen.insert(h),
                selected: w.selected.insert(h),
                count: w.count + 1,
                bytes: w.bytes + len,
                cursor: w.cursor,
            }
        }
    }
}

/// The walk after `n` steps.
pub open spec fn page_walk_run<S: TrustedStore>(store: S, request: HistoryRequest, n: nat) -> PageWalk
    decreases n,
{
    if n == 0 {
        page_walk_start(store, request)
    } else {
        page_walk_next(store, request, page_walk_run(store, request, (n - 1) as nat))
    }
}

/// `b` answers `request` from the store: the space's frontier, at most the
/// requested number of events and bytes, each a stored event reached from
/// the wanted heads (or the frontier) through stored parents and not among
/// the requester's, in hash order; with no cursor, every such event; with a
/// cursor, one such event left out because a cap was reached.
pub open spec fn page_of<S: TrustedStore>(store: S, request: HistoryRequest, b: RawBatch) -> bool {
            &&& b.summary.space == request.space
            &&& b.summary.advertised_frontier@ == store.head_of(request.space).0
            &&& b.events@.len() <= request.max_events
            &&& b.summary.encoded_bytes <= request.max_bytes
            &&& exists|hs: Seq<[u8; 32]>| #![trigger hashes_sorted(hs)] hs.len() == b.events@.len() && hashes_sorted(hs)
                && (forall|k: int| 0 <= k < hs.len() ==> #[trigger] servable(store, request, hs[k], b.events@[k]@)
                    && page_reaches(store, request, hs[k]))
                && (b.summary.next_cursor is None ==> forall|h: [u8; 32]| #![trigger page_reaches(store, request, h)]
                    page_reaches(store, request, h) && store.holds(request.space, h) && !request.have@.contains(h) ==> hs.contains(h))
                && (b.summary.next_cursor matches Some(c) ==> page_reaches(store, request, c) && store.holds(request.space, c)
                    && !request.have@.contains(c) && !hs.contains(c)
                    && (b.events@.len() == request.max_events
                        || b.summary.encoded_bytes + store.encoded_of(request.space, c).len() > request.max_bytes))
                && exists|n: nat| #![trigger page_walk_run(store, request, n)] page_walk_done(page_walk_run(store, request, n))
                    && hs.to_set() == page_walk_run(store, request, n).selected
                    && b.summary.next_cursor == page_walk_run(store, request, n).cursor
                    && b.summary.encoded_bytes == page_walk_run(store, request, n).bytes
}

/// A deterministic page of stored events for a validated request: the
/// wanted events (or the head's frontier) and their ancestors, skipping
/// what the requester has, capped in count and bytes; the cursor names the
/// first event that did not fit. Events come sorted by hash.
#[verifier::spinoff_prover]
pub fn reconciliation_page<S: TrustedStore>(store: &S, request: &HistoryRequest) -> (r: Result<RawBatch, HistoryError>)
    ensures
        request_result(*request) is Err ==> r == Err::<RawBatch, HistoryError>(request_result(*request)->Err_0),
        r matches Ok(b) ==> request_result(*request) is Ok && bounds_result(b) is Ok && page_of(*store, *request, b),
        r matches Err(e) ==> request_result(*request) == Err::<(), HistoryError>(e) || (e is Store && !store.reliable())
            || exists|b: RawBatch| #[trigger] page_of(*store, *request, b) && bounds_result(b) == Err::<(), HistoryError>(e),
{
    if let Err(e) = request.validate() {
        return Err(e);
    }
    let count_cap: usize = request.max_events as usize;
    let byte_cap: usize = request.max_bytes as usize;
    let ghost start = page_start(*store, *request);
    let mut queue: Vec<EventHash> = copy_hashes(&request.want);
    if queue.len() == 0 {
        match store.head(&request.space) {
            Err(msg) => return Err(HistoryError::Store(msg)),
            Ok(h) => {
                queue = h.frontier;
            },
        }
    }
    assert(queue@ == start);
    proof {
        assert forall|j: int| 0 <= j < queue@.len() implies #[trigger] page_reaches(*store, *request, queue@[j]) by {
            lemma_page_start(*store, *request, j);
        }
    }
    let mut head: usize = 0;
    let mut seen: Vec<EventHash> = Vec::new();
    let mut selected: Vec<(EventHash, Vec<u8>)> = Vec::new();
    let mut bytes: usize = 0;
    let mut next_cursor: Option<EventHash> = None;
    let ghost mut steps: nat = 0;
    proof {
        assert(seen@.to_set() =~= Set::<[u8; 32]>::empty());
        assert(pair_hashes(selected@).to_set() =~= Set::<[u8; 32]>::empty());
    }
    while head < queue.len()
        invariant_except_break
            next_cursor is None,
            forall|a: [u8; 32], b: [u8; 32]| #![trigger page_step(*store, *request, a, b), seen@.contains(a)]
                seen@.contains(a) && page_step(*store, *request, a, b) ==> queue@.contains(b),
            forall|x: [u8; 32]| #[trigger] seen@.contains(x) && store.holds(request.space, x) && !request.have@.contains(x)
                ==> pair_hashes(selected@).contains(x),
        invariant
            0 <= head <= queue@.len(),
            request_result(*request) is Ok,
            count_cap == request.max_events,
            byte_cap == request.max_bytes,
            count_cap <= MAX_BATCH_EVENTS,
            byte_cap <= MAX_HISTORY_PAGE_BYTES,
            selected@.len() <= count_cap,
            bytes <= byte_cap,
            seen@.no_duplicates(),
            hashes_sorted(pair_hashes(selected@)),
            forall|x: [u8; 32]| pair_hashes(selected@).contains(x) ==> #[trigger] seen@.contains(x),
            forall|k: int| 0 <= k < selected@.len() ==> #[trigger] servable(*store, *request, selected@[k].0, selected@[k].1@)
                && page_reaches(*store, *request, selected@[k].0),
            start == page_start(*store, *request),
            start.len() <= queue@.len(),
            forall|j: int| 0 <= j < start.len() ==> #[trigger] queue@[j] == start[j],
            forall|j: int| 0 <= j < queue@.len() ==> #[trigger] page_reaches(*store, *request, queue@[j]),
            forall|j: int| 0 <= j < head ==> seen@.contains(#[trigger] queue@[j]) || request.have@.contains(queue@[j]),
            page_walk_run(*store, *request, steps).queue == queue@,
            page_walk_run(*store, *request, steps).head == head,
            page_walk_run(*store, *request, steps).seen == seen@.to_set(),
            page_walk_run(*store, *request, steps).selected == pair_hashes(selected@).to_set(),
            page_walk_run(*store, *request, steps).count == selected@.len(),
            page_walk_run(*store, *request, steps).bytes == bytes,
            page_walk_run(*store, *request, steps).cursor == next_cursor,
        ensures
            page_walk_done(page_walk_run(*store, *request, steps)),
            next_cursor is None ==> head == queue@.len(),
            next_cursor is None ==> forall|a: [u8; 32], b: [u8; 32]| #![trigger page_step(*store, *request, a, b), seen@.contains(a)]
                seen@.contains(a) && page_step(*store, *request, a, b) ==> queue@.contains(b),
            next_cursor is None ==> forall|x: [u8; 32]| #[trigger] seen@.contains(x) && store.holds(request.space, x)
                && !request.have@.contains(x) ==> pair_hashes(selected@).contains(x),
            next_cursor matches Some(c) ==> page_reaches(*store, *request, c) && store.holds(request.space, c)
                && !request.have@.contains(c) && !pair_hashes(selected@).contains(c)
                && (selected@.len() == count_cap || bytes + store.encoded_of(request.space, c).len() > byte_cap),
        decreases count_cap - selected@.len(), queue@.len() - head,
    {
        let h = queue[head];
        let ghost s0 = seen@;
        let ghost q0 = queue@;
        let ghost at = head as int;
        let ghost w0 = page_walk_run(*store, *request, steps);
        assert(page_reaches(*store, *request, q0[at]));
        proof {
            steps = steps + 1;
            assert(page_walk_run(*store, *request, steps) == page_walk_next(*store, *request, w0));
            assert(w0.seen.contains(h) <==> s0.contains(h));
        }
        head += 1;
        if hashes_contain(&seen, &h) || hashes_contain(&request.have, &h) {
            continue;
        }
        let ghost seen_before = seen@.to_set();
        insert_hash(&mut seen, h);
        proof {
            assert forall|x: [u8; 32]| #[trigger] seen@.contains(x) <==> (s0.contains(x) || x == h) by {
                assert(seen@.to_set().contains(x) <==> seen_before.insert(h).contains(x));
            }
            assert forall|j: int| 0 <= j < head implies seen@.contains(#[trigger] queue@[j]) || request.have@.contains(queue@[j]) by {
                if j < at {
                    assert(s0.contains(q0[j]) || request.have@.contains(q0[j]));
                }
            }
            assert forall|x: [u8; 32]| pair_hashes(selected@).contains(x) implies #[trigger] seen@.contains(x) by {
                assert(s0.contains(x));
            }
        }
        let event = match store.event(&request.space, &h) {
            Err(msg) => return Err(HistoryError::Store(msg)),
            Ok(None) => {
                proof {
                    assert(seen@.to_set() =~= w0.seen.insert(h));
                    assert forall|a: [u8; 32], b: [u8; 32]| #![trigger page_step(*store, *request, a, b), seen@.contains(a)]
                        seen@.contains(a) && page_step(*store, *request, a, b) implies queue@.contains(b) by {
                        assert(s0.contains(a));
                    }
                    assert forall|x: [u8; 32]| #[trigger] seen@.contains(x) && store.holds(request.space, x) && !request.have@.contains(x)
                        implies pair_hashes(selected@).contains(x) by {
                        assert(s0.contains(x));
                    }
                }
                continue;
            },
            Ok(Some(e)) => e,
        };
        let n = event.encoded.len();
        if selected.len() == count_cap || n > byte_cap - bytes {
            next_cursor = Some(h);
            proof {
                assert(seen@.to_set() =~= w0.seen.insert(h));
                if pair_hashes(selected@).contains(h) {
                    assert(s0.contains(h));
                }
            }
            break;
        }
        bytes = bytes + n;
        let parents = &event.event.event.parents;
        let ghost qlen = queue@.len();
        let ghost q1 = queue@;
        let mut k: usize = 0;
        while k < parents.len()
            invariant
                0 <= k <= parents@.len(),
                parents@ == store.parents_of(request.space, h),
                store.holds(request.space, h),
                !request.have@.contains(h),
                page_reaches(*store, *request, h),
                0 <= head <= queue@.len(),
                queue@.len() == qlen + k,
                q1.len() == qlen,
                head <= qlen,
                forall|j: int| 0 <= j < qlen ==> #[trigger] queue@[j] == q1[j],
                forall|kk: int| 0 <= kk < k ==> #[trigger] queue@[qlen + kk] == parents@[kk],
                forall|j: int| 0 <= j < queue@.len() ==> #[trigger] page_reaches(*store, *request, queue@[j]),
            decreases parents.len() - k,
        {
            proof {
                assert(parents@.contains(parents@[k as int]));
                assert(page_step(*store, *request, h, parents@[k as int]));
                lemma_page_step(*store, *request, h, parents@[k as int]);
            }
            let ghost qb = queue@;
            queue.push(parents[k]);
            proof {
                assert forall|j: int| 0 <= j < queue@.len() implies #[trigger] page_reaches(*store, *request, queue@[j]) by {
                    if j < qb.len() {
                        assert(queue@[j] == qb[j]);
                    }
                }
                assert forall|j: int| 0 <= j < qlen implies #[trigger] queue@[j] == q1[j] by {
                    assert(queue@[j] == qb[j]);
                }
                assert forall|kk: int| 0 <= kk < k + 1 implies #[trigger] queue@[qlen + kk] == parents@[kk] by {
                    if kk < k {
                        assert(queue@[qlen + kk] == qb[qlen + kk]);
                    }
                }
            }
            k += 1;
        }
        let ghost before = selected@;
        proof {
            if pair_hashes(selected@).contains(h) {
                assert(s0.contains(h));
            }
            assert(servable(*store, *request, h, event.encoded@));
            assert forall|x: [u8; 32]| q1.contains(x) implies queue@.contains(x) by {
                let j = choose|j: int| 0 <= j < q1.len() && q1[j] == x;
                assert(queue@[j] == x);
            }
            assert forall|j: int| 0 <= j < head implies seen@.contains(#[trigger] queue@[j]) || request.have@.contains(queue@[j]) by {
                assert(queue@[j] == q1[j]);
            }
            assert forall|j: int| 0 <= j < start.len() implies #[trigger] queue@[j] == start[j] by {
                assert(queue@[j] == q1[j]);
            }
        }
        let ghost ev = event.encoded;
        insert_selected(&mut selected, h, event.encoded);
        proof {
            let j = choose|j: int| 0 <= j <= before.len() && selected@ == #[trigger] before.insert(j, (h, ev));
            assert forall|k: int| 0 <= k < selected@.len() implies #[trigger] servable(*store, *request, selected@[k].0, selected@[k].1@)
                && page_reaches(*store, *request, selected@[k].0) by {
                if k < j {
                    assert(selected@[k] == before[k]);
                    assert(servable(*store, *request, before[k].0, before[k].1@) && page_reaches(*store, *request, before[k].0));
                } else if k > j {
                    assert(selected@[k] == before[k - 1]);
                    assert(servable(*store, *request, before[k - 1].0, before[k - 1].1@) && page_reaches(*store, *request, before[k - 1].0));
                } else {
                    assert(selected@[k] == (h, ev));
                    assert(page_reaches(*store, *request, h));
                }
            }
            assert forall|x: [u8; 32]| pair_hashes(before).contains(x) implies pair_hashes(selected@).contains(x) by {
                let a = choose|a: int| 0 <= a < pair_hashes(before).len() && pair_hashes(before)[a] == x;
                if a < j {
                    assert(selected@[a] == before[a]);
                    assert(pair_hashes(selected@)[a] == x);
                } else {
                    assert(selected@[a + 1] == before[a]);
                    assert(pair_hashes(selected@)[a + 1] == x);
                }
            }
            assert(selected@[j] == (h, ev));
            assert(pair_hashes(selected@)[j] == h);
            assert forall|x: [u8; 32]| pair_hashes(selected@).contains(x) implies #[trigger] seen@.contains(x) by {
                let a = choose|a: int| 0 <= a < pair_hashes(selected@).len() && pair_hashes(selected@)[a] == x;
                if a < j {
                    assert(selected@[a] == before[a]);
                    assert(pair_hashes(before)[a] == x);
                    assert(pair_hashes(before).contains(x));
                } else if a > j {
                    assert(selected@[a] == before[a - 1]);
                    assert(pair_hashes(before)[a - 1] == x);
                    assert(pair_hashes(before).contains(x));
                } else {
                    assert(x == h);
                }
            }
            assert forall|a: [u8; 32], b: [u8; 32]| #![trigger page_step(*store, *request, a, b), seen@.contains(a)]
                seen@.contains(a) && page_step(*store, *request, a, b) implies queue@.contains(b) by {
                if a == h {
                    let kk = choose|kk: int| 0 <= kk < parents@.len() && parents@[kk] == b;
                    assert(queue@[qlen + kk] == b);
                } else {
                    assert(s0.contains(a));
                    assert(q0.contains(b));
                    assert(q1.contains(b));
                }
            }
            assert forall|x: [u8; 32]| #[trigger] seen@.contains(x) && store.holds(request.space, x) && !request.have@.contains(x)
                implies pair_hashes(selected@).contains(x) by {
                if x != h {
                    assert(s0.contains(x));
                    assert(pair_hashes(before).contains(x));
                }
            }
            assert(seen@.to_set() =~= w0.seen.insert(h));
            assert forall|i: int| 0 <= i < queue@.len() implies #[trigger] queue@[i] == (q1 + parents@)[i] by {
                if i >= qlen {
                    assert(queue@[qlen + (i - qlen)] == parents@[i - qlen]);
                } else {
                    assert(queue@[i] == q1[i]);
                }
            }
            assert(queue@ =~= q1 + parents@);
            assert(pair_hashes(selected@).to_set() =~= pair_hashes(before).to_set().insert(h)) by {
                assert forall|x: [u8; 32]| pair_hashes(selected@).contains(x) implies pair_hashes(before).contains(x) || x == h by {
                    let a = choose|a: int| 0 <= a < pair_hashes(selected@).len() && pair_hashes(selected@)[a] == x;
                    if a < j {
                        assert(selected@[a] == before[a]);
                        assert(pair_hashes(before)[a] == x);
                    } else if a > j {
                        assert(selected@[a] == before[a - 1]);
                        assert(pair_hashes(before)[a - 1] == x);
                    }
                }
            }
        }
    }
    let mut events: Vec<Vec<u8>> = Vec::new();
    let ghost hs = pair_hashes(selected@);
    let mut k: usize = 0;
    while k < selected.len()
        invariant
            0 <= k <= selected@.len(),
            events@.len() == k,
            hs == pair_hashes(selected@),
            forall|q: int| 0 <= q < k ==> #[trigger] events@[q]@ == selected@[q].1@,
        decreases selected.len() - k,
    {
        let mut copy: Vec<u8> = Vec::new();
        push_raw(&mut copy, selected[k].1.as_slice());
        let ghost before = events@;
        events.push(copy);
        proof {
            assert forall|q: int| 0 <= q < k + 1 implies #[trigger] events@[q]@ == selected@[q].1@ by {
                if q < k {
                    assert(events@[q] == before[q]);
                }
            }
        }
        k += 1;
    }
    let frontier = match store.head(&request.space) {
        Err(msg) => return Err(HistoryError::Store(msg)),
        Ok(h) => h.frontier,
    };
    let summary = HistoryResponseSummary {
        space: request.space,
        advertised_frontier: frontier,
        event_count: events.len() as u32,
        encoded_bytes: bytes as u32,
        next_cursor,
    };
    let ghost b = RawBatch { summary: summary, events: events };
    let r = RawBatch::new(summary, events);
    proof {
        {
            assert forall|q: int| 0 <= q < hs.len() implies #[trigger] servable(*store, *request, hs[q], b.events@[q]@)
                && page_reaches(*store, *request, hs[q]) by {
                assert(hs[q] == selected@[q].0);
                assert(servable(*store, *request, selected@[q].0, selected@[q].1@));
            }
            assert(hashes_sorted(hs));
            assert(b.summary.encoded_bytes == bytes);
            if next_cursor is None {
                let v = Set::new(|x: [u8; 32]| seen@.contains(x) || request.have@.contains(x));
                assert forall|x: [u8; 32]| page_start(*store, *request).contains(x) implies v.contains(x) by {
                    let j = choose|j: int| 0 <= j < start.len() && start[j] == x;
                    assert(queue@[j] == start[j]);
                    assert(seen@.contains(queue@[j]) || request.have@.contains(queue@[j]));
                }
                assert forall|a: [u8; 32], b: [u8; 32]| #![trigger page_step(*store, *request, a, b), v.contains(a)]
                    v.contains(a) && page_step(*store, *request, a, b) implies v.contains(b) by {
                    assert(seen@.contains(a));
                    assert(queue@.contains(b));
                    let j = choose|j: int| 0 <= j < queue@.len() && queue@[j] == b;
                    assert(seen@.contains(queue@[j]) || request.have@.contains(queue@[j]));
                }
                assert forall|h: [u8; 32]| #![trigger page_reaches(*store, *request, h)]
                    page_reaches(*store, *request, h) && store.holds(request.space, h) && !request.have@.contains(h) implies hs.contains(h) by {
                    let path = choose|path: Seq<[u8; 32]>| #[trigger] page_walk(*store, *request, path) && path.last() == h;
                    lemma_page_walk_stays(*store, *request, v, path);
                    assert(seen@.contains(h));
                }
            }
        }
        assert(page_of(*store, *request, b));
    }
    r
}

/// Authenticates event ciphertexts for a store that holds the keys.
pub trait EventAuthenticator {
    /// Whether the authenticator accepts an event, by its canonical bytes;
    /// unless an implementation says otherwise, every event.
    open spec fn accepts_event(&self, encoded: Seq<u8>) -> bool {
        true
    }

    fn authenticate(&self, event: &SignedEventV1) -> (r: Result<(), String>)
        ensures
            r is Ok <==> self.accepts_event(signed_event_bytes(*event));
}

/// Copies a head.
pub fn copy_head(h: &HistoryHead) -> (c: HistoryHead)
    ensures
        c.frontier@ == h.frontier@,
        c.event_count == h.event_count,
        c.commitment == h.commitment,
{
    HistoryHead { frontier: copy_hashes(&h.frontier), event_count: h.event_count, commitment: h.commitment }
}

/// Whether two heads are equal.
pub fn head_eq(a: &HistoryHead, b: &HistoryHead) -> (eq: bool)
    ensures
        eq == (a.frontier@ == b.frontier@ && a.event_count == b.event_count && a.commitment == b.commitment),
{
    if a.event_count != b.event_count || !hash_eq(&a.commitment, &b.commitment) {
        return false;
    }
    if a.frontier.len() != b.frontier.len() {
        return false;
    }
    let mut i: usize = 0;
    while i < a.frontier.len()
        invariant
            0 <= i <= a.frontier@.len(),
            a.frontier@.len() == b.frontier@.len(),
            forall|j: int| 0 <= j < i ==> a.frontier@[j] == b.frontier@[j],
        decreases a.frontier.len() - i,
    {
        if !hash_eq(&a.frontier[i], &b.frontier[i]) {
            return false;
        }
        i += 1;
    }
    assert(a.frontier@ =~= b.frontier@);
    true
}

} // verus!
