use starling::crypto::EpochKey;
use starling::history::memory::InMemoryTrustedStore;
use starling::history::{
    membership_scope, missing_parents, reconciliation_page, validate_batch, EventAuthenticator,
    HistoryError, HistoryHead, HistoryRequest, RawBatch, TrustedStore, MAX_HISTORY_PAGE_BYTES,
    MAX_RAW_FRAME_BYTES,
};
use starling::keys::SecretKey;
use starling::membership::MembershipState;
use starling::protocol::{EventHash, EventMetadataV1, FlockId, SignedEventV1, SpaceId, KIND_EVENT_V1};

fn fixture() -> (SecretKey, EpochKey, SpaceId, MembershipState, InMemoryTrustedStore<starling::history::memory::AcceptAll>) {
    let key = SecretKey::from_bytes(&[23; 32]);
    let epoch = EpochKey::derive(b"history secret", b"history space", 0).unwrap();
    let space = SpaceId::Flock(FlockId([4; 32]));
    let membership = MembershipState::genesis(membership_scope(space), key.public());
    let store = InMemoryTrustedStore::new(membership.clone());
    (key, epoch, space, membership, store)
}

fn event(
    key: &SecretKey,
    epoch: &EpochKey,
    space: SpaceId,
    session: u8,
    sequence: u64,
    parents: Vec<EventHash>,
) -> SignedEventV1 {
    EventMetadataV1::new(KIND_EVENT_V1, space, key.public(), [session; 16], sequence, 0, 0, parents)
        .unwrap()
        .seal_and_sign(b"payload", epoch, key)
        .unwrap()
}

fn raw(space: SpaceId, events: &[SignedEventV1]) -> RawBatch {
    RawBatch::from_events(space, &events.to_vec()).unwrap()
}

struct BadTag;

impl EventAuthenticator for BadTag {
    fn authenticate(&self, _: &SignedEventV1) -> Result<(), String> {
        Err("bad tag".to_string())
    }
}

#[test]
fn valid_contiguous_dag_is_deterministic_and_converges() {
    let (key, epoch, space, _, mut store_a) = fixture();
    let (_, _, _, _, mut store_b) = fixture();
    let first = event(&key, &epoch, space, 1, 0, vec![]);
    let first_hash = first.verify().unwrap();
    let second = event(&key, &epoch, space, 1, 1, vec![first_hash]);
    let a = validate_batch(&mut store_a, space, raw(space, &[second.clone(), first.clone()])).unwrap();
    let b = validate_batch(&mut store_b, space, raw(space, &[first, second])).unwrap();
    assert_eq!(
        a.events.iter().map(|e| e.hash).collect::<Vec<_>>(),
        b.events.iter().map(|e| e.hash).collect::<Vec<_>>()
    );
    assert_eq!(a.head, b.head);
    assert_eq!(a.head.event_count, 2);
}

#[test]
fn rejects_gap_and_missing_immediate_parent() {
    let (key, epoch, space, _, mut store) = fixture();
    let gap = event(&key, &epoch, space, 1, 2, vec![]);
    assert!(validate_batch(&mut store, space, raw(space, &[gap])).is_err());
    let first = event(&key, &epoch, space, 1, 0, vec![]);
    let second = event(&key, &epoch, space, 1, 1, vec![]);
    assert!(validate_batch(&mut store, space, raw(space, &[first, second])).is_err());
}

#[test]
fn rejects_signature_kind_membership_and_aead_tamper() {
    let (key, epoch, space, _, mut store) = fixture();
    let valid = event(&key, &epoch, space, 1, 0, vec![]);
    let mut signature = valid.clone();
    signature.event.nonce[0] ^= 1;
    assert!(validate_batch(&mut store, space, raw(space, &[signature])).is_err());
    let wrong_kind = EventMetadataV1::new(99, space, key.public(), [2; 16], 0, 0, 0, vec![])
        .unwrap()
        .seal_and_sign(b"x", &epoch, &key)
        .unwrap();
    assert!(validate_batch(&mut store, space, raw(space, &[wrong_kind])).is_err());
    let outsider = SecretKey::generate();
    let unauthorized = event(&outsider, &epoch, space, 3, 0, vec![]);
    assert!(validate_batch(&mut store, space, raw(space, &[unauthorized])).is_err());
    let (_, _, _, membership, _) = fixture();
    let mut aead_store = InMemoryTrustedStore::new(membership).with_authenticator(BadTag);
    assert!(validate_batch(&mut aead_store, space, raw(space, &[valid])).is_err());
}

#[test]
fn rejects_duplicate_sequence_conflicts_and_noncanonical_bytes() {
    let (key, epoch, space, _, mut store) = fixture();
    let a = event(&key, &epoch, space, 1, 0, vec![]);
    let b = event(&key, &epoch, space, 1, 0, vec![]);
    assert!(validate_batch(&mut store, space, raw(space, &[a, b])).is_err());
    let mut malformed = raw(space, &[]);
    malformed.events.push(vec![0xff]);
    malformed.summary.event_count = 1;
    malformed.summary.encoded_bytes = 1;
    assert!(validate_batch(&mut store, space, malformed).is_err());
}

#[test]
fn raw_decode_rejects_oversize_before_decode() {
    assert!(RawBatch::decode(&vec![0; MAX_RAW_FRAME_BYTES + 1]).is_err());
}

#[test]
fn commit_failure_is_atomic_and_retry_is_durable() {
    let (key, epoch, space, _, mut store) = fixture();
    let first = event(&key, &epoch, space, 1, 0, vec![]);
    let hash = first.verify().unwrap();
    store.set_fail_commits(true);
    assert!(validate_batch(&mut store, space, raw(space, std::slice::from_ref(&first))).is_err());
    assert!(store.event(&space, &hash).unwrap().is_none());
    assert_eq!(store.head(&space).unwrap(), HistoryHead::empty());
    store.set_fail_commits(false);
    validate_batch(&mut store, space, raw(space, &[first])).unwrap();
    assert!(store.event(&space, &hash).unwrap().is_some());
    assert_eq!(store.head(&space).unwrap().event_count, 1);
}

#[test]
fn session_genesis_links_prior_sender_head() {
    let (key, epoch, space, _, mut store) = fixture();
    let first = event(&key, &epoch, space, 1, 0, vec![]);
    let hash = first.verify().unwrap();
    validate_batch(&mut store, space, raw(space, &[first])).unwrap();
    let unlinked = event(&key, &epoch, space, 2, 0, vec![]);
    assert!(validate_batch(&mut store, space, raw(space, &[unlinked])).is_err());
    let linked = event(&key, &epoch, space, 2, 0, vec![hash]);
    validate_batch(&mut store, space, raw(space, &[linked])).unwrap();
}

#[test]
fn reconciliation_is_paginated_and_missing_is_recursive() {
    let (key, epoch, space, _, mut store) = fixture();
    let first = event(&key, &epoch, space, 1, 0, vec![]);
    let first_hash = first.verify().unwrap();
    let second = event(&key, &epoch, space, 1, 1, vec![first_hash]);
    let second_hash = second.verify().unwrap();
    validate_batch(&mut store, space, raw(space, &[first, second])).unwrap();
    let request = HistoryRequest {
        space,
        requester: key.public(),
        challenge: [1; 32],
        have: vec![],
        want: vec![second_hash],
        cursor: None,
        max_events: 1,
        max_bytes: MAX_HISTORY_PAGE_BYTES as u32,
    };
    let page = reconciliation_page(&store, &request).unwrap();
    assert_eq!(page.events.len(), 1);
    assert!(page.summary.next_cursor.is_some());
    assert_eq!(missing_parents(&store, &space, vec![[9; 32]], &[], 10).unwrap(), vec![[9; 32]]);
}

#[test]
fn raw_batch_encoding_round_trips() {
    let (key, epoch, space, _, _) = fixture();
    let first = event(&key, &epoch, space, 1, 0, vec![]);
    let batch = raw(space, &[first]);
    let bytes = batch.encode().unwrap();
    let decoded = RawBatch::decode(&bytes).unwrap();
    assert_eq!(decoded.events, batch.events);
    assert_eq!(decoded.summary.event_count, 1);
    assert_eq!(decoded.summary.space, space);
}

#[test]
fn history_limits_are_refused() {
    let (key, _, space, _, store) = fixture();
    assert_eq!(
        missing_parents(&store, &space, vec![], &[], 4097).err(),
        Some(HistoryError::PageLimitTooLarge)
    );
    let request = HistoryRequest {
        space,
        requester: key.public(),
        challenge: [1; 32],
        have: vec![],
        want: vec![],
        cursor: None,
        max_events: 0,
        max_bytes: 1,
    };
    assert!(request.validate().is_err());
    assert_eq!(
        HistoryHead::new((0..65u8).map(|i| [i; 32]).collect(), 1).err(),
        Some(HistoryError::FrontierTooLarge)
    );
    assert_eq!(HistoryHead::new(vec![[1; 32]; 65], 1).unwrap().frontier, vec![[1; 32]]);
    assert_eq!(HistoryHead::empty().event_count, 0);
}

#[test]
fn signed_requests_bind_the_requester() {
    let (key, _, space, _, _) = fixture();
    let request = HistoryRequest {
        space,
        requester: key.public(),
        challenge: [1; 32],
        have: vec![],
        want: vec![],
        cursor: None,
        max_events: 1,
        max_bytes: 1,
    };
    let signed = request.clone().sign(&key).unwrap();
    assert!(signed.verify(&key.public()).is_ok());
    assert!(signed.verify(&SecretKey::generate().public()).is_err());
    assert!(request.sign(&SecretKey::generate()).is_err());
}

#[test]
fn commit_records_positions_sender_heads_and_head_commitment() {
    let (key, epoch, space, _, mut store) = fixture();
    let first = event(&key, &epoch, space, 1, 0, vec![]);
    let first_hash = first.verify().unwrap();
    let second = event(&key, &epoch, space, 1, 1, vec![first_hash]);
    let second_hash = second.verify().unwrap();
    let sender = key.public();
    assert_eq!(store.sender_head(&space, &sender).unwrap(), None);
    let v = validate_batch(&mut store, space, raw(space, &[second, first])).unwrap();
    assert_eq!(store.sequence_hash(&space, &sender, &[1; 16], 0).unwrap(), Some(first_hash));
    assert_eq!(store.sequence_hash(&space, &sender, &[1; 16], 1).unwrap(), Some(second_hash));
    assert_eq!(store.sequence_hash(&space, &sender, &[1; 16], 2).unwrap(), None);
    assert_eq!(store.sender_head(&space, &sender).unwrap(), Some(second_hash));
    let head = store.head(&space).unwrap();
    assert_eq!(head, v.head);
    assert_eq!(head, HistoryHead::new(vec![second_hash], 2).unwrap());
}

#[test]
fn validation_refusals_leave_store_reads_unchanged() {
    let (key, epoch, space, _, mut store) = fixture();
    let first = event(&key, &epoch, space, 1, 0, vec![]);
    let first_hash = first.verify().unwrap();
    let mut bad = raw(space, &[first.clone()]);
    bad.events[0].push(0);
    assert!(validate_batch(&mut store, space, bad).is_err());
    assert_eq!(store.event(&space, &first_hash).unwrap().map(|t| t.hash), None);
    assert_eq!(store.head(&space).unwrap(), HistoryHead::empty());
    let other = SpaceId::Flock(FlockId([5; 32]));
    assert_eq!(
        validate_batch(&mut store, other, raw(space, &[first])).err(),
        Some(HistoryError::SpaceMismatch)
    );
}

#[test]
fn head_is_determined_by_frontier_hashes_and_count() {
    let a: EventHash = [1; 32];
    let b: EventHash = [2; 32];
    let left = HistoryHead::new(vec![b, a, a], 3).unwrap();
    let right = HistoryHead::new(vec![a, b], 3).unwrap();
    assert_eq!(left, right);
    assert_eq!(left.frontier, vec![a, b]);
    assert_ne!(left, HistoryHead::new(vec![a, b], 4).unwrap());
}

#[test]
fn capped_page_takes_events_in_walk_order_from_the_wanted_heads() {
    let (key, epoch, space, _, mut store) = fixture();
    let first = event(&key, &epoch, space, 1, 0, vec![]);
    let first_hash = first.verify().unwrap();
    let second = event(&key, &epoch, space, 1, 1, vec![first_hash]);
    let second_hash = second.verify().unwrap();
    let third = event(&key, &epoch, space, 1, 2, vec![second_hash]);
    let third_hash = third.verify().unwrap();
    validate_batch(&mut store, space, raw(space, &[first.clone(), second.clone(), third.clone()])).unwrap();
    let mut request = HistoryRequest {
        space,
        requester: key.public(),
        challenge: [1; 32],
        have: vec![],
        want: vec![third_hash],
        cursor: None,
        max_events: 2,
        max_bytes: MAX_HISTORY_PAGE_BYTES as u32,
    };
    let page = reconciliation_page(&store, &request).unwrap();
    let mut expected = vec![third.encode(), second.encode()];
    expected.sort_by_key(|bytes| SignedEventV1::decode_canonical(bytes).unwrap().verify().unwrap());
    assert_eq!(page.events, expected);
    assert_eq!(page.summary.next_cursor, Some(first_hash));
    request.have = vec![second_hash];
    let page = reconciliation_page(&store, &request).unwrap();
    assert_eq!(page.events, vec![third.encode()]);
    assert_eq!(page.summary.next_cursor, None);
}

#[test]
fn committed_events_read_back_with_their_encoding_and_parents() {
    let (key, epoch, space, _, mut store) = fixture();
    let first = event(&key, &epoch, space, 1, 0, vec![]);
    let first_hash = first.verify().unwrap();
    let second = event(&key, &epoch, space, 1, 1, vec![first_hash]);
    let second_hash = second.verify().unwrap();
    validate_batch(&mut store, space, raw(space, &[first.clone()])).unwrap();
    validate_batch(&mut store, space, raw(space, &[second.clone()])).unwrap();
    let stored_first = store.event(&space, &first_hash).unwrap().unwrap();
    assert_eq!(stored_first.encoded, first.encode());
    assert!(stored_first.event.event.parents.is_empty());
    let stored_second = store.event(&space, &second_hash).unwrap().unwrap();
    assert_eq!(stored_second.encoded, second.encode());
    assert_eq!(stored_second.event.event.parents, vec![first_hash]);
}
