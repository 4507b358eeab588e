//! An in-memory reference store with an atomic compare-and-commit.

use vstd::prelude::*;
use vstd::string::StringExecFns;
use crate::assoc::{lemma_lookup_push, lemma_lookup_update_first, lookup};
use crate::history::{
    copy_head, head_commitment_spec, head_eq, in_incoming, incoming_position, EventAuthenticator, EventHash, HistoryHead, TrustedEvent, TrustedStore,
};
use crate::keys::{hash_eq, EndpointId};
use crate::membership::MembershipState;
use crate::protocol::event::SignedEventV1;
use crate::protocol::id::{space_eq, SpaceId};

verus! {

/// The events, positions and heads of one space.
pub struct MemorySpace {
    pub head: Option<HistoryHead>,
    pub events: Vec<TrustedEvent>,
    pub sequences: Vec<(EndpointId, [u8; 16], u64, EventHash)>,
    pub sender_heads: Vec<(EndpointId, EventHash)>,
}

/// Accepts every event: signatures alone are checked.
pub struct AcceptAll;

impl EventAuthenticator for AcceptAll {
    fn authenticate(&self, event: &SignedEventV1) -> (r: Result<(), String>)
        ensures
            r is Ok,
    {
        Ok(())
    }
}

/// A reference store kept in memory, committing under one exclusive
/// borrow. Durable stores are meant to keep the same compare-and-commit
/// behaviour.
pub struct InMemoryTrustedStore<A> {
    membership: MembershipState,
    spaces: Vec<(SpaceId, MemorySpace)>,
    authenticator: Option<A>,
    fail_commits: bool,
}

pub open spec fn space_head(ms: MemorySpace) -> (Seq<[u8; 32]>, u64) {
    match ms.head {
        Some(h) => (h.frontier@, h.event_count),
        None => (Seq::empty(), 0),
    }
}

/// The first stored event with hash `h`.
pub open spec fn stored_event(events: Seq<TrustedEvent>, h: [u8; 32]) -> Option<TrustedEvent>
    decreases events.len(),
{
    if events.len() == 0 {
        None
    } else if events[0].hash == h {
        Some(events[0])
    } else {
        stored_event(events.drop_first(), h)
    }
}

/// The first recorded position entry for a sender's session sequence.
pub open spec fn stored_position(s: Seq<(EndpointId, [u8; 16], u64, EventHash)>, sender: EndpointId, session: [u8; 16], sequence: u64) -> Option<[u8; 32]>
    decreases s.len(),
{
    if s.len() == 0 {
        None
    } else if s[0].0 == sender && s[0].1 == session && s[0].2 == sequence {
        Some(s[0].3)
    } else {
        stored_position(s.drop_first(), sender, session, sequence)
    }
}

pub proof fn lemma_stored_event_some(events: Seq<TrustedEvent>, h: [u8; 32])
    ensures
        stored_event(events, h) is Some <==> in_incoming(events, h),
        stored_event(events, h) matches Some(t) ==> t.hash == h,
    decreases events.len(),
{
    if events.len() > 0 {
        lemma_stored_event_some(events.drop_first(), h);
        if in_incoming(events, h) && events[0].hash != h {
            let i = choose|i: int| 0 <= i < events.len() && #[trigger] events[i].hash == h;
            assert(events.drop_first()[i - 1] == events[i]);
        }
        if in_incoming(events.drop_first(), h) {
            let i = choose|i: int| 0 <= i < events.len() - 1 && #[trigger] events.drop_first()[i].hash == h;
            assert(events[i + 1] == events.drop_first()[i]);
        }
    }
}

/// The hash of the last of `events` sent by `sender`.
pub open spec fn last_by_sender(events: Seq<TrustedEvent>, sender: EndpointId) -> Option<[u8; 32]>
    decreases events.len(),
{
    if events.len() == 0 {
        None
    } else if events.last().event.event.sender == sender {
        Some(events.last().hash)
    } else {
        last_by_sender(events.drop_last(), sender)
    }
}

proof fn lemma_stored_event_push(s: Seq<TrustedEvent>, t: TrustedEvent, h: [u8; 32])
    ensures
        stored_event(s.push(t), h) == (match stored_event(s, h) {
            Some(x) => Some(x),
            None => if t.hash == h { Some(t) } else { None },
        }),
    decreases s.len(),
{
    if s.len() > 0 {
        assert(s.push(t).drop_first() =~= s.drop_first().push(t));
        assert(s.push(t)[0] == s[0]);
        lemma_stored_event_push(s.drop_first(), t, h);
    } else {
        assert(s.push(t).drop_first() =~= Seq::<TrustedEvent>::empty());
        assert(s.push(t)[0] == t);
        assert(stored_event(s.push(t).drop_first(), h) is None);
    }
}

proof fn lemma_stored_position_push(s: Seq<(EndpointId, [u8; 16], u64, EventHash)>, x: (EndpointId, [u8; 16], u64, EventHash), a: EndpointId, b: [u8; 16], c: u64)
    ensures
        stored_position(s.push(x), a, b, c) == (match stored_position(s, a, b, c) {
            Some(h) => Some(h),
            None => if x.0 == a && x.1 == b && x.2 == c { Some(x.3) } else { None },
        }),
    decreases s.len(),
{
    if s.len() > 0 {
        assert(s.push(x).drop_first() =~= s.drop_first().push(x));
        assert(s.push(x)[0] == s[0]);
        lemma_stored_position_push(s.drop_first(), x, a, b, c);
    } else {
        assert(s.push(x).drop_first() =~= Seq::<(EndpointId, [u8; 16], u64, EventHash)>::empty());
        assert(s.push(x)[0] == x);
        assert(stored_position(s.push(x).drop_first(), a, b, c) is None);
    }
}

proof fn lemma_incoming_position_push(s: Seq<TrustedEvent>, t: TrustedEvent, a: EndpointId, b: [u8; 16], c: u64)
    ensures
        incoming_position(s.push(t), a, b, c) == (match incoming_position(s, a, b, c) {
            Some(h) => Some(h),
            None => if t.event.event.sender == a && t.event.event.session_id == b && t.event.event.sequence == c {
                Some(t.hash)
            } else {
                None
            },
        }),
    decreases s.len(),
{
    if s.len() > 0 {
        assert(s.push(t).drop_first() =~= s.drop_first().push(t));
        assert(s.push(t)[0] == s[0]);
        lemma_incoming_position_push(s.drop_first(), t, a, b, c);
    } else {
        assert(s.push(t).drop_first() =~= Seq::<TrustedEvent>::empty());
        assert(s.push(t)[0] == t);
        assert(incoming_position(s.push(t).drop_first(), a, b, c) is None);
    }
}

/// Two events of one commit that cannot both be stored: the same hash, or
/// the same sender's session position.
pub open spec fn collides_with(a: TrustedEvent, b: TrustedEvent) -> bool {
    ||| a.hash == b.hash
    ||| (a.event.event.sender == b.event.event.sender && a.event.event.session_id == b.event.event.session_id
        && a.event.event.sequence == b.event.event.sequence)
}

/// Event `k` of a commit cannot be stored: the space already holds an event
/// with its hash or at its session position, or an earlier event of the
/// commit collides with it.
pub open spec fn commit_collides(spaces: Seq<(SpaceId, MemorySpace)>, space: SpaceId, events: Seq<TrustedEvent>, k: int) -> bool {
    let e = events[k].event.event;
    ||| (lookup(spaces, space) matches Some(ms) && stored_event(ms.events@, events[k].hash) is Some)
    ||| (lookup(spaces, space) matches Some(ms) && stored_position(ms.sequences@, e.sender, e.session_id, e.sequence) is Some)
    ||| exists|q: int| 0 <= q < k && #[trigger] collides_with(events[q], events[k])
}

impl<A> InMemoryTrustedStore<A> {
    pub closed spec fn membership_view(&self) -> MembershipState {
        self.membership
    }

    /// The spaces and what each holds.
    pub closed spec fn spaces_view(&self) -> Seq<(SpaceId, MemorySpace)> {
        self.spaces@
    }

    pub closed spec fn fails_commits(&self) -> bool {
        self.fail_commits
    }

    pub closed spec fn has_authenticator(&self) -> bool {
        self.authenticator is Some
    }

    /// The frontier, event count and commitment of a space's head record;
    /// a space with no record has the empty head.
    pub closed spec fn head_record(&self, space: SpaceId) -> (Seq<[u8; 32]>, u64, Seq<u8>) {
        match lookup(self.spaces@, space) {
            Some(ms) => match ms.head {
                Some(h) => (h.frontier@, h.event_count, h.commitment@),
                None => (Seq::empty(), 0, head_commitment_spec(Seq::empty(), 0)),
            },
            None => (Seq::empty(), 0, head_commitment_spec(Seq::empty(), 0)),
        }
    }
}

impl<A: EventAuthenticator> InMemoryTrustedStore<A> {
    fn find_space(&self, space: &SpaceId) -> (r: Option<usize>)
        ensures
            r matches Some(i) ==> i < self.spaces@.len() && self.spaces@[i as int].0 == *space
                && lookup(self.spaces@, *space) == Some(self.spaces@[i as int].1)
                && forall|j: int| 0 <= j < i ==> #[trigger] self.spaces@[j].0 != *space,
            r is None ==> lookup(self.spaces@, *space) is None,
    {
        let mut i: usize = 0;
        while i < self.spaces.len()
            invariant
                0 <= i <= self.spaces@.len(),
                forall|j: int| 0 <= j < i ==> #[trigger] self.spaces@[j].0 != *space,
            decreases self.spaces.len() - i,
        {
            if space_eq(&self.spaces[i].0, space) {
                proof {
                    crate::assoc::lemma_lookup_first(self.spaces@, i as int);
                }
                return Some(i);
            }
            i += 1;
        }
        proof {
            crate::assoc::lemma_lookup_none(self.spaces@, *space);
        }
        None
    }

    /// Replaces the authenticator.
    pub fn with_authenticator<B: EventAuthenticator>(self, authenticator: B) -> (s: InMemoryTrustedStore<B>)
        ensures
            s.membership_view() == self.membership_view(),
            s.spaces_view() == self.spaces_view(),
            s.fails_commits() == self.fails_commits(),
            s.has_authenticator(),
    {
        InMemoryTrustedStore {
            membership: self.membership,
            spaces: self.spaces,
            authenticator: Some(authenticator),
            fail_commits: self.fail_commits,
        }
    }

    /// Makes every commit fail, or not: for exercising atomicity.
    pub fn set_fail_commits(&mut self, fail: bool)
        ensures
            final(self).fails_commits() == fail,
            final(self).membership_view() == old(self).membership_view(),
            final(self).spaces_view() == old(self).spaces_view(),
            final(self).has_authenticator() == old(self).has_authenticator(),
    {
        self.fail_commits = fail;
    }
}

impl InMemoryTrustedStore<AcceptAll> {
    /// An empty store under a membership chain.
    pub fn new(membership: MembershipState) -> (s: InMemoryTrustedStore<AcceptAll>)
        ensures
            s.membership_view() == membership,
            s.spaces_view().len() == 0,
            !s.has_authenticator(),
            !s.fails_commits(),
    {
        InMemoryTrustedStore { membership, spaces: Vec::new(), authenticator: None, fail_commits: false }
    }
}

fn find_position(s: &Vec<(EndpointId, [u8; 16], u64, EventHash)>, sender: &EndpointId, session: &[u8; 16], sequence: u64) -> (r: Option<EventHash>)
    ensures
        r == stored_position(s@, *sender, *session, sequence),
{
    let mut i: usize = 0;
    assert(s@.skip(0) =~= s@);
    while i < s.len()
        invariant
            0 <= i <= s@.len(),
            stored_position(s@, *sender, *session, sequence) == stored_position(s@.skip(i as int), *sender, *session, sequence),
        decreases s.len() - i,
    {
        let e = &s[i];
        let same_sender = crate::keys::bytes32_eq(&e.0.0, &sender.0);
        let same_session = crate::protocol::id::bytes16_eq(&e.1, session);
        proof {
            let rest = s@.skip(i as int);
            assert(rest[0] == s@[i as int]);
            assert(rest.drop_first() =~= s@.skip(i + 1));
            if same_sender {
                assert(e.0.0 =~= sender.0);
            } else if e.0 == *sender {
                assert(e.0.0@ == sender.0@);
            }
            if same_session {
                assert(e.1 =~= *session);
            } else if e.1 == *session {
                assert(e.1@ == session@);
            }
        }
        if same_sender && same_session && e.2 == sequence {
            return Some(e.3);
        }
        i += 1;
    }
    assert(s@.skip(i as int) =~= Seq::<(EndpointId, [u8; 16], u64, EventHash)>::empty());
    None
}

fn find_event(events: &Vec<TrustedEvent>, h: &EventHash) -> (r: Option<usize>)
    ensures
        r matches Some(i) ==> i < events@.len() && stored_event(events@, *h) == Some(events@[i as int]),
        r is None ==> stored_event(events@, *h) is None,
{
    let mut i: usize = 0;
    assert(events@.skip(0) =~= events@);
    while i < events.len()
        invariant
            0 <= i <= events@.len(),
            stored_event(events@, *h) == stored_event(events@.skip(i as int), *h),
        decreases events.len() - i,
    {
        proof {
            let rest = events@.skip(i as int);
            assert(rest[0] == events@[i as int]);
            assert(rest.drop_first() =~= events@.skip(i + 1));
        }
        if hash_eq(&events[i].hash, h) {
            return Some(i);
        }
        i += 1;
    }
    assert(events@.skip(i as int) =~= Seq::<TrustedEvent>::empty());
    None
}

impl<A: EventAuthenticator> TrustedStore for InMemoryTrustedStore<A> {
    closed spec fn head_of(&self, space: SpaceId) -> (Seq<[u8; 32]>, u64) {
        match lookup(self.spaces@, space) {
            Some(ms) => space_head(ms),
            None => (Seq::empty(), 0),
        }
    }

    closed spec fn holds(&self, space: SpaceId, hash: [u8; 32]) -> bool {
        match lookup(self.spaces@, space) {
            Some(ms) => stored_event(ms.events@, hash) is Some,
            None => false,
        }
    }

    closed spec fn encoded_of(&self, space: SpaceId, hash: [u8; 32]) -> Seq<u8> {
        match lookup(self.spaces@, space) {
            Some(ms) => match stored_event(ms.events@, hash) {
                Some(t) => t.encoded@,
                None => Seq::empty(),
            },
            None => Seq::empty(),
        }
    }

    closed spec fn parents_of(&self, space: SpaceId, hash: [u8; 32]) -> Seq<[u8; 32]> {
        match lookup(self.spaces@, space) {
            Some(ms) => match stored_event(ms.events@, hash) {
                Some(t) => t.event.event.parents@,
                None => Seq::empty(),
            },
            None => Seq::empty(),
        }
    }

    closed spec fn membership_of(&self, space: SpaceId) -> MembershipState {
        self.membership
    }

    closed spec fn sequence_of(&self, space: SpaceId, sender: EndpointId, session: [u8; 16], sequence: u64) -> Option<[u8; 32]> {
        match lookup(self.spaces@, space) {
            Some(ms) => stored_position(ms.sequences@, sender, session, sequence),
            None => None,
        }
    }

    closed spec fn sender_head_of(&self, space: SpaceId, sender: EndpointId) -> Option<[u8; 32]> {
        match lookup(self.spaces@, space) {
            Some(ms) => lookup(ms.sender_heads@, sender),
            None => None,
        }
    }

    closed spec fn head_commitment_of(&self, space: SpaceId) -> Seq<u8> {
        self.head_record(space).2
    }

    closed spec fn reliable(&self) -> bool {
        true
    }

    closed spec fn accepts(&self, encoded: Seq<u8>) -> bool {
        match self.authenticator {
            None => true,
            Some(a) => a.accepts_event(encoded),
        }
    }

    closed spec fn commit_accepts(
        &self,
        space: SpaceId,
        expected: (Seq<[u8; 32]>, u64, Seq<u8>),
        events: Seq<TrustedEvent>,
        new_head: (Seq<[u8; 32]>, u64, Seq<u8>),
    ) -> bool {
        &&& !self.fail_commits
        &&& self.head_record(space) == expected
        &&& !exists|k: int| 0 <= k < events.len() && #[trigger] commit_collides(self.spaces@, space, events, k)
    }

    fn head(&self, space: &SpaceId) -> (r: Result<HistoryHead, String>)
        ensures
            r matches Ok(h) && (h.frontier@, h.event_count, h.commitment@) == self.head_record(*space),
    {
        match self.find_space(space) {
            Some(i) => match &self.spaces[i].1.head {
                Some(h) => Ok(copy_head(h)),
                None => Ok(HistoryHead::empty()),
            },
            None => Ok(HistoryHead::empty()),
        }
    }

    fn event(&self, space: &SpaceId, hash: &EventHash) -> (r: Result<Option<TrustedEvent>, String>)
        ensures
            r is Ok,
    {
        match self.find_space(space) {
            Some(i) => {
                let events = &self.spaces[i].1.events;
                match find_event(events, hash) {
                    Some(j) => {
                        proof {
                            lemma_stored_event_some(events@, *hash);
                        }
                        Ok(Some(events[j].copy()))
                    },
                    None => Ok(None),
                }
            },
            None => Ok(None),
        }
    }

    fn sequence_hash(&self, space: &SpaceId, sender: &EndpointId, session: &[u8; 16], sequence: u64) -> (r: Result<Option<EventHash>, String>)
        ensures
            r is Ok,
    {
        match self.find_space(space) {
            Some(i) => Ok(find_position(&self.spaces[i].1.sequences, sender, session, sequence)),
            None => Ok(None),
        }
    }

    fn sender_head(&self, space: &SpaceId, sender: &EndpointId) -> (r: Result<Option<EventHash>, String>)
        ensures
            r is Ok,
    {
        match self.find_space(space) {
            Some(i) => {
                let heads = &self.spaces[i].1.sender_heads;
                match crate::assoc::find_key(heads, sender) {
                    Some(j) => Ok(Some(heads[j].1)),
                    None => Ok(None),
                }
            },
            None => Ok(None),
        }
    }

    fn membership(&self, space: &SpaceId) -> (r: Result<MembershipState, String>)
        ensures
            r is Ok,
    {
        Ok(self.membership.copy())
    }

    fn authenticate(&self, event: &SignedEventV1) -> (r: Result<(), String>)
        ensures
            !self.has_authenticator() ==> r is Ok,
    {
        match &self.authenticator {
            None => Ok(()),
            Some(a) => a.authenticate(event),
        }
    }

    fn commit(&mut self, space: &SpaceId, expected: &HistoryHead, events: &[TrustedEvent], new_head: &HistoryHead) -> (r: Result<(), String>)
        ensures
            r is Err <==> (old(self).fails_commits()
                || old(self).head_record(*space) != (expected.frontier@, expected.event_count, expected.commitment@)
                || exists|k: int| 0 <= k < events@.len() && #[trigger] commit_collides(old(self).spaces_view(), *space, events@, k)),
            r is Ok ==> final(self).head_record(*space) == (new_head.frontier@, new_head.event_count, new_head.commitment@),
            r is Ok ==> forall|a: EndpointId, b: [u8; 16], c: u64| #[trigger] final(self).sequence_of(*space, a, b, c)
                == (match old(self).sequence_of(*space, a, b, c) {
                    Some(h) => Some(h),
                    None => incoming_position(events@, a, b, c),
                }),
            r is Ok ==> forall|a: EndpointId| #[trigger] final(self).sender_head_of(*space, a)
                == (match last_by_sender(events@, a) {
                    Some(h) => Some(h),
                    None => old(self).sender_head_of(*space, a),
                }),
    {
        if self.fail_commits {
            return Err(String::from_str("injected commit failure"));
        }
        let found = self.find_space(space);
        let empty_head = HistoryHead::empty();
        let actual_ok = match found {
            Some(i) => match &self.spaces[i].1.head {
                Some(h) => head_eq(h, expected),
                None => head_eq(&empty_head, expected),
            },
            None => head_eq(&empty_head, expected),
        };
        if !actual_ok {
            proof {
                if self.head_record(*space) == (expected.frontier@, expected.event_count, expected.commitment@) {
                    match found {
                        Some(i) => match self.spaces@[i as int].1.head {
                            Some(h) => {
                                assert(h.commitment@ == expected.commitment@);
                                assert(h.commitment =~= expected.commitment);
                                assert(false);
                            },
                            None => {
                                assert(empty_head.commitment =~= expected.commitment);
                                assert(empty_head.frontier@ =~= expected.frontier@);
                            },
                        },
                        None => {
                            assert(empty_head.commitment =~= expected.commitment);
                            assert(empty_head.frontier@ =~= expected.frontier@);
                        },
                    }
                }
            }
            return Err(String::from_str("history head changed during validation"));
        }
        let mut k: usize = 0;
        while k < events.len()
            invariant
                0 <= k <= events@.len(),
                *self == *old(self),
                !self.fail_commits,
                self.head_record(*space) == (expected.frontier@, expected.event_count, expected.commitment@),
                found matches Some(i) ==> i < self.spaces@.len() && lookup(self.spaces@, *space) == Some(self.spaces@[i as int].1),
                found is None ==> lookup(self.spaces@, *space) is None,
                forall|j: int| 0 <= j < k ==> !#[trigger] commit_collides(self.spaces@, *space, events@, j),
            decreases events.len() - k,
        {
            let t = &events[k];
            let present = match found {
                Some(i) => find_event(&self.spaces[i].1.events, &t.hash).is_some(),
                None => false,
            };
            assert(present == (lookup(self.spaces@, *space) matches Some(ms) && stored_event(ms.events@, t.hash) is Some));
            let mut earlier = false;
            let mut q: usize = 0;
            while q < k
                invariant
                    0 <= q <= k < events@.len(),
                    t == events@[k as int],
                    earlier <==> exists|p: int| 0 <= p < q && #[trigger] events@[p].hash == t.hash,
                decreases k - q,
            {
                if hash_eq(&events[q].hash, &t.hash) {
                    earlier = true;
                }
                q += 1;
            }
            if present || earlier {
                proof {
                    if !present {
                        let p = choose|p: int| 0 <= p < k && #[trigger] events@[p].hash == t.hash;
                        assert(collides_with(events@[p], events@[k as int]));
                    }
                    assert(commit_collides(old(self).spaces_view(), *space, events@, k as int));
                }
                return Err(String::from_str("event became present during commit"));
            }
            let e = &t.event.event;
            let position_taken = match found {
                Some(i) => find_position(&self.spaces[i].1.sequences, &e.sender, &e.session_id, e.sequence).is_some(),
                None => false,
            };
            assert(position_taken == (lookup(self.spaces@, *space) matches Some(ms) && stored_position(ms.sequences@, e.sender, e.session_id, e.sequence) is Some));
            let mut clash = false;
            let mut q: usize = 0;
            while q < k
                invariant
                    0 <= q <= k < events@.len(),
                    t == events@[k as int],
                    e == t.event.event,
                    clash <==> exists|p: int| 0 <= p < q && #[trigger] collides_with(events@[p], events@[k as int])
                        && events@[p].event.event.sender == e.sender && events@[p].event.event.session_id == e.session_id
                        && events@[p].event.event.sequence == e.sequence,
                decreases k - q,
            {
                let o = &events[q].event.event;
                let sp = crate::history::same_position(o, &e.sender, &e.session_id, e.sequence);
                if sp {
                    clash = true;
                }
                proof {
                    if sp {
                        assert(collides_with(events@[q as int], events@[k as int]));
                    }
                    if exists|p: int| 0 <= p < q + 1 && #[trigger] collides_with(events@[p], events@[k as int])
                        && events@[p].event.event.sender == e.sender && events@[p].event.event.session_id == e.session_id
                        && events@[p].event.event.sequence == e.sequence {
                        let p = choose|p: int| 0 <= p < q + 1 && #[trigger] collides_with(events@[p], events@[k as int])
                            && events@[p].event.event.sender == e.sender && events@[p].event.event.session_id == e.session_id
                            && events@[p].event.event.sequence == e.sequence;
                        if p < q {
                            assert(exists|p2: int| 0 <= p2 < q && #[trigger] collides_with(events@[p2], events@[k as int])
                                && events@[p2].event.event.sender == e.sender && events@[p2].event.event.session_id == e.session_id
                                && events@[p2].event.event.sequence == e.sequence);
                        }
                    }
                }
                q += 1;
            }
            if position_taken || clash {
                proof {
                    assert(commit_collides(old(self).spaces_view(), *space, events@, k as int));
                }
                return Err(String::from_str("sequence became present during commit"));
            }
            proof {
                assert forall|p: int| 0 <= p < k implies !#[trigger] collides_with(events@[p], events@[k as int]) by {
                    if events@[p].hash == t.hash {
                        assert(exists|p2: int| 0 <= p2 < k && #[trigger] events@[p2].hash == t.hash);
                    }
                }
                assert(!commit_collides(self.spaces@, *space, events@, k as int));
            }
            k += 1;
        }
        proof {
            assert(!exists|k: int| 0 <= k < events@.len() && #[trigger] commit_collides(old(self).spaces_view(), *space, events@, k));
        }
        let idx = match found {
            Some(i) => i,
            None => {
                let empty = MemorySpace { head: None, events: Vec::new(), sequences: Vec::new(), sender_heads: Vec::new() };
                let ghost before = self.spaces@;
                self.spaces.push((*space, empty));
                proof {
                    assert forall|q: SpaceId| #[trigger] lookup(self.spaces@, q) == (if q == *space {
                        Some(self.spaces@.last().1)
                    } else {
                        lookup(before, q)
                    }) by {
                        lemma_lookup_push(before, *space, self.spaces@.last().1, q);
                    }
                    assert forall|j: int| 0 <= j < before.len() implies #[trigger] self.spaces@[j].0 != *space by {
                        assert(self.spaces@[j] == before[j]);
                        if before[j].0 == *space {
                            assert(lookup(before, *space) is Some) by {
                                crate::assoc::lemma_lookup_none(before, *space);
                            }
                        }
                    }
                }
                self.spaces.len() - 1
            },
        };
        let ghost mid = self.spaces@;
        let (key, mut ms) = self.spaces.remove(idx);
        let ghost old_events = ms.events@;
        proof {
            assert(lookup(mid, *space) == Some(mid[idx as int].1));
            assert(ms == mid[idx as int].1);
            assert forall|h: [u8; 32]| #[trigger] old(self).holds(*space, h) <==> stored_event(old_events, h) is Some by {
                if found is None {
                    assert(old_events.len() == 0);
                }
            }
        }
        proof {
            assert forall|j: int| 0 <= j < events@.len() implies stored_event(old_events, #[trigger] events@[j].hash) is None
                && forall|p: int| 0 <= p < j ==> events@[p].hash != events@[j].hash by {
                assert(!commit_collides(old(self).spaces_view(), *space, events@, j));
                if found is None {
                    assert(old_events.len() == 0);
                }
                assert forall|p: int| 0 <= p < j implies events@[p].hash != events@[j].hash by {
                    if events@[p].hash == events@[j].hash {
                        assert(collides_with(events@[p], events@[j]));
                    }
                }
            }
        }
        let ghost old_sequences = ms.sequences@;
        let ghost old_heads = ms.sender_heads@;
        let mut k: usize = 0;
        assert(events@.take(0) =~= Seq::<TrustedEvent>::empty());
        while k < events.len()
            invariant
                0 <= k <= events@.len(),
                ms.events@.len() == old_events.len() + k,
                forall|j: int| 0 <= j < old_events.len() ==> #[trigger] ms.events@[j] == old_events[j],
                forall|j: int| 0 <= j < k ==> #[trigger] ms.events@[old_events.len() + j].hash == events@[j].hash,
                forall|j: int| 0 <= j < events@.len() ==> stored_event(old_events, #[trigger] events@[j].hash) is None
                    && forall|p: int| 0 <= p < j ==> events@[p].hash != events@[j].hash,
                forall|i: int| 0 <= i < k ==> (stored_event(ms.events@, #[trigger] events@[i].hash) matches Some(t)
                    && t.encoded@ == events@[i].encoded@ && t.event.event.parents@ == events@[i].event.event.parents@),
                forall|h: [u8; 32]| #[trigger] stored_event(old_events, h) is Some ==> stored_event(ms.events@, h) == stored_event(old_events, h),
                forall|h: [u8; 32]| #[trigger] stored_event(ms.events@, h) is Some
                    ==> stored_event(old_events, h) is Some || exists|i: int| 0 <= i < k && events@[i].hash == h,
                forall|a: EndpointId, b: [u8; 16], c: u64| #[trigger] stored_position(ms.sequences@, a, b, c)
                    == (match stored_position(old_sequences, a, b, c) {
                        Some(h) => Some(h),
                        None => incoming_position(events@.take(k as int), a, b, c),
                    }),
                forall|a: EndpointId| #[trigger] lookup(ms.sender_heads@, a)
                    == (match last_by_sender(events@.take(k as int), a) {
                        Some(h) => Some(h),
                        None => lookup(old_heads, a),
                    }),
            decreases events.len() - k,
        {
            let t = &events[k];
            let ghost events0 = ms.events@;
            let c = t.copy();
            ms.events.push(c);
            proof {
                assert(stored_event(events0, t.hash) is None) by {
                    if stored_event(events0, t.hash) is Some {
                        if stored_event(old_events, t.hash) is None {
                            let i = choose|i: int| 0 <= i < k && events@[i].hash == t.hash;
                            assert(events@[i].hash != events@[k as int].hash);
                        }
                    }
                }
                assert forall|i: int| 0 <= i < k + 1 implies (stored_event(ms.events@, #[trigger] events@[i].hash) matches Some(x)
                    && x.encoded@ == events@[i].encoded@ && x.event.event.parents@ == events@[i].event.event.parents@) by {
                    lemma_stored_event_push(events0, c, events@[i].hash);
                }
                assert forall|h: [u8; 32]| #[trigger] stored_event(old_events, h) is Some implies stored_event(ms.events@, h) == stored_event(old_events, h) by {
                    lemma_stored_event_push(events0, c, h);
                }
                assert forall|h: [u8; 32]| #[trigger] stored_event(ms.events@, h) is Some
                    implies stored_event(old_events, h) is Some || exists|i: int| 0 <= i < k + 1 && events@[i].hash == h by {
                    lemma_stored_event_push(events0, c, h);
                    if stored_event(events0, h) is None {
                        assert(events@[k as int].hash == h);
                    }
                }
            }
            let e = &t.event.event;
            let ghost seqs0 = ms.sequences@;
            let ghost heads0 = ms.sender_heads@;
            let entry = (e.sender, e.session_id, e.sequence, t.hash);
            ms.sequences.push(entry);
            match crate::assoc::find_key(&ms.sender_heads, &e.sender) {
                Some(j) => {
                    ms.sender_heads.set(j, (e.sender, t.hash));
                    proof {
                        assert forall|a: EndpointId| #[trigger] lookup(ms.sender_heads@, a)
                            == (if a == e.sender { Some(t.hash) } else { lookup(heads0, a) }) by {
                            assert(ms.sender_heads@ == heads0.update(j as int, (heads0[j as int].0, t.hash)));
                            lemma_lookup_update_first(heads0, j as int, t.hash, a);
                        }
                    }
                },
                None => {
                    ms.sender_heads.push((e.sender, t.hash));
                    proof {
                        assert forall|a: EndpointId| #[trigger] lookup(ms.sender_heads@, a)
                            == (if a == e.sender { Some(t.hash) } else { lookup(heads0, a) }) by {
                            lemma_lookup_push(heads0, e.sender, t.hash, a);
                        }
                    }
                },
            }
            proof {
                let pre = events@.take(k as int);
                let post = events@.take(k + 1);
                assert(post =~= pre.push(events@[k as int]));
                assert(post.drop_last() =~= pre);
                assert forall|a: EndpointId, b: [u8; 16], c: u64| #[trigger] stored_position(ms.sequences@, a, b, c)
                    == (match stored_position(old_sequences, a, b, c) {
                        Some(h) => Some(h),
                        None => incoming_position(post, a, b, c),
                    }) by {
                    lemma_stored_position_push(seqs0, entry, a, b, c);
                    lemma_incoming_position_push(pre, events@[k as int], a, b, c);
                }
                assert forall|a: EndpointId| #[trigger] lookup(ms.sender_heads@, a)
                    == (match last_by_sender(post, a) {
                        Some(h) => Some(h),
                        None => lookup(old_heads, a),
                    }) by {
                    assert(post.last() == events@[k as int]);
                }
            }
            k += 1;
        }
        assert(events@.take(events@.len() as int) =~= events@);
        ms.head = Some(copy_head(new_head));
        let ghost new_ms = ms;
        self.spaces.insert(idx, (key, ms));
        proof {
            assert(self.spaces@ =~= mid.update(idx as int, (*space, new_ms)));
            assert forall|q: SpaceId| #[trigger] lookup(self.spaces@, q) == (if q == *space {
                Some(new_ms)
            } else {
                lookup(mid, q)
            }) by {
                lemma_lookup_update_first(mid, idx as int, new_ms, q);
            }
            assert forall|h: [u8; 32]| stored_event(new_ms.events@, h) is Some
                <==> (stored_event(old_events, h) is Some || exists|i: int| 0 <= i < events@.len() && events@[i].hash == h) by {
                lemma_stored_event_some(new_ms.events@, h);
                lemma_stored_event_some(old_events, h);
                if in_incoming(new_ms.events@, h) {
                    let i = choose|i: int| 0 <= i < new_ms.events@.len() && #[trigger] new_ms.events@[i].hash == h;
                    if i < old_events.len() {
                        assert(new_ms.events@[i] == old_events[i]);
                    } else {
                        assert(new_ms.events@[old_events.len() + (i - old_events.len())].hash == events@[i - old_events.len()].hash);
                    }
                }
                if in_incoming(old_events, h) {
                    let i = choose|i: int| 0 <= i < old_events.len() && #[trigger] old_events[i].hash == h;
                    assert(new_ms.events@[i] == old_events[i]);
                }
                if exists|i: int| 0 <= i < events@.len() && events@[i].hash == h {
                    let i = choose|i: int| 0 <= i < events@.len() && events@[i].hash == h;
                    assert(new_ms.events@[old_events.len() + i].hash == events@[i].hash);
                }
            }
            assert(lookup(self.spaces@, *space) == Some(new_ms));
            assert forall|h: [u8; 32]| #[trigger] self.holds(*space, h)
                <==> (old(self).holds(*space, h) || exists|i: int| 0 <= i < events@.len() && events@[i].hash == h) by {
                assert(self.holds(*space, h) == (stored_event(new_ms.events@, h) is Some));
                assert(old(self).holds(*space, h) == (stored_event(old_events, h) is Some));
            }
            assert forall|i: int| 0 <= i < events@.len() implies self.encoded_of(*space, #[trigger] events@[i].hash) == events@[i].encoded@
                && self.parents_of(*space, events@[i].hash) == events@[i].event.event.parents@ by {
                assert(stored_event(new_ms.events@, events@[i].hash) is Some);
            }
            assert forall|h: [u8; 32]| #[trigger] old(self).holds(*space, h) implies self.encoded_of(*space, h) == old(self).encoded_of(*space, h)
                && self.parents_of(*space, h) == old(self).parents_of(*space, h) by {
                assert(stored_event(old_events, h) is Some);
                assert(stored_event(new_ms.events@, h) == stored_event(old_events, h));
                if found is Some {
                    assert(lookup(old(self).spaces_view(), *space) == Some(mid[idx as int].1));
                }
            }
            assert forall|a: EndpointId, b: [u8; 16], c: u64| #[trigger] self.sequence_of(*space, a, b, c)
                == (match old(self).sequence_of(*space, a, b, c) {
                    Some(h) => Some(h),
                    None => incoming_position(events@, a, b, c),
                }) by {
                assert(self.sequence_of(*space, a, b, c) == stored_position(new_ms.sequences@, a, b, c));
                assert(old(self).sequence_of(*space, a, b, c) == stored_position(old_sequences, a, b, c));
            }
            assert forall|a: EndpointId| #[trigger] self.sender_head_of(*space, a)
                == (match last_by_sender(events@, a) {
                    Some(h) => Some(h),
                    None => old(self).sender_head_of(*space, a),
                }) by {
                assert(self.sender_head_of(*space, a) == lookup(new_ms.sender_heads@, a));
                assert(old(self).sender_head_of(*space, a) == lookup(old_heads, a));
            }
        }
        Ok(())
    }
}

} // verus!
