//! The V0 chat-history sync: a peer sends the timestamp it has seen up to,
//! and is answered with the newest messages after it, as many as fit.

use vstd::prelude::*;
use crate::event::ChatMessage;
use crate::wire::{
    flatten, lemma_postcard_bounds, lemma_varint_at_encoding, push_string, push_varint, read_u64, text_field, u64_at,
    varint, zigzag, zigzag_u64,
};

verus! {

pub const SYNC_ALPN: &'static str = "starling/sync/0";

/// At most this many messages are sent.
pub const MAX_MESSAGES: usize = 500;

/// A request longer than this is refused.
pub const MAX_REQUEST_BYTES: usize = 16;

/// An encoded response never exceeds this many bytes.
pub const MAX_RESPONSE_BYTES: usize = 8 * 1024 * 1024;

/// The canonical bytes of a chat message: its three texts, then its
/// timestamp zig-zag mapped.
pub open spec fn chat_message_bytes(m: ChatMessage) -> Seq<u8> {
    text_field(m.id@) + text_field(m.author@) + text_field(m.body@) + varint(zigzag(m.ts as int))
}

/// A length-prefixed list of chat messages.
pub open spec fn chat_list_bytes(s: Seq<ChatMessage>) -> Seq<u8> {
    varint(s.len()) + flatten(s.map_values(|m: ChatMessage| chat_message_bytes(m)))
}

/// The messages of `h` stamped after `since`, in order.
pub open spec fn newer_than(h: Seq<ChatMessage>, since: i64) -> Seq<ChatMessage>
    decreases h.len(),
{
    if h.len() == 0 {
        Seq::empty()
    } else if h.last().ts > since {
        newer_than(h.drop_last(), since).push(h.last())
    } else {
        newer_than(h.drop_last(), since)
    }
}

/// The newest [`MAX_MESSAGES`] messages stamped after `since`.
pub open spec fn recent_messages(h: Seq<ChatMessage>, since: i64) -> Seq<ChatMessage> {
    let f = newer_than(h, since);
    if f.len() <= MAX_MESSAGES {
        f
    } else {
        f.skip(f.len() - MAX_MESSAGES)
    }
}

/// How many of the oldest messages must go before the rest fit the
/// response limit, counting from `d`.
pub open spec fn drop_to_fit(r: Seq<ChatMessage>, d: nat) -> nat
    decreases r.len() - d,
{
    if d >= r.len() || chat_list_bytes(r.skip(d as int)).len() <= MAX_RESPONSE_BYTES {
        d
    } else {
        drop_to_fit(r, d + 1)
    }
}

/// The messages a sync response carries.
pub open spec fn response_messages(h: Seq<ChatMessage>, since: i64) -> Seq<ChatMessage> {
    let r = recent_messages(h, since);
    r.skip(drop_to_fit(r, 0) as int)
}

/// The timestamp a request carries: a zig-zag varint, trailing bytes
/// ignored.
pub open spec fn request_since(req: Seq<u8>) -> Option<i64> {
    match u64_at(req, 0) {
        None => None,
        Some((z, _)) => Some(
            if z % 2 == 0 {
                (z / 2) as i64
            } else {
                (-((z + 1) / 2)) as i64
            },
        ),
    }
}

/// Reads the timestamp a sync request carries.
pub fn parse_request(req: &[u8]) -> (r: Option<i64>)
    ensures
        r == request_since(req@),
{
    match read_u64(req, 0) {
        None => None,
        Some((z, _)) => {
            if z % 2 == 0 {
                Some((z / 2) as i64)
            } else {
                let half = (z / 2) as i64;
                Some(-half - 1)
            }
        },
    }
}

/// A request carrying the zig-zag varint of `since` reads back as `since`,
/// whatever follows it.
pub proof fn lemma_request_round_trip(since: i64, rest: Seq<u8>)
    ensures
        request_since(varint(zigzag(since as int)) + rest) == Some(since),
{
    lemma_postcard_bounds();
    let e0 = Seq::<u8>::empty();
    let z = zigzag(since as int);
    assert(z < 0x1_0000_0000_0000_0000);
    assert(e0 + varint(z) + rest =~= varint(z) + rest);
    lemma_varint_at_encoding(e0, z, rest, 10, 1);
}

/// Appends the canonical bytes of a chat message.
pub fn push_chat_message(out: &mut Vec<u8>, m: &ChatMessage)
    ensures
        final(out)@ == old(out)@ + chat_message_bytes(*m),
{
    push_string(out, &m.id);
    push_string(out, &m.author);
    push_string(out, &m.body);
    push_varint(out, zigzag_u64(m.ts));
    assert(final(out)@ =~= old(out)@ + chat_message_bytes(*m));
}

/// The canonical bytes of the messages of `ms` from index `from` on.
pub fn encode_chat_messages(ms: &Vec<ChatMessage>, from: usize) -> (out: Vec<u8>)
    requires
        from <= ms@.len(),
    ensures
        out@ == chat_list_bytes(ms@.skip(from as int)),
{
    let ghost s = ms@.skip(from as int);
    let ghost views = s.map_values(|m: ChatMessage| chat_message_bytes(m));
    let mut out: Vec<u8> = Vec::new();
    push_varint(&mut out, (ms.len() - from) as u64);
    let ghost start = out@;
    let mut i: usize = from;
    while i < ms.len()
        invariant
            from <= i <= ms@.len(),
            s == ms@.skip(from as int),
            views == s.map_values(|m: ChatMessage| chat_message_bytes(m)),
            out@ == start + flatten(views.take(i - from)),
        decreases ms.len() - i,
    {
        push_chat_message(&mut out, &ms[i]);
        assert(views.take(i + 1 - from).drop_last() =~= views.take(i - from));
        i += 1;
    }
    assert(views.take(ms@.len() - from) =~= views);
    out
}

proof fn lemma_empty_list_fits(r: Seq<ChatMessage>)
    ensures
        chat_list_bytes(r.skip(r.len() as int)).len() == 1,
{
    let e = r.skip(r.len() as int);
    assert(e.len() == 0);
    assert(e.map_values(|m: ChatMessage| chat_message_bytes(m)) =~= Seq::<Seq<u8>>::empty());
    assert(varint(0) =~= seq![0u8]);
}

proof fn lemma_drop_to_fit(r: Seq<ChatMessage>, d: nat)
    requires
        d <= r.len(),
    ensures
        d <= drop_to_fit(r, d) <= r.len(),
        chat_list_bytes(r.skip(drop_to_fit(r, d) as int)).len() <= MAX_RESPONSE_BYTES,
        forall|k: nat| d <= k < drop_to_fit(r, d) ==> chat_list_bytes(#[trigger] r.skip(k as int)).len()
            > MAX_RESPONSE_BYTES,
    decreases r.len() - d,
{
    if d >= r.len() {
        lemma_empty_list_fits(r);
    } else if chat_list_bytes(r.skip(d as int)).len() > MAX_RESPONSE_BYTES {
        lemma_drop_to_fit(r, d + 1);
    }
}

/// The answer to a sync request: the newest messages stamped after
/// `since`, at most [`MAX_MESSAGES`] of them, with the oldest dropped one
/// by one until the encoding fits [`MAX_RESPONSE_BYTES`]; encoded.
pub fn sync_response(history: &Vec<ChatMessage>, since: i64) -> (out: Vec<u8>)
    ensures
        out@ == chat_list_bytes(response_messages(history@, since)),
        out@.len() <= MAX_RESPONSE_BYTES,
        response_messages(history@, since).len() <= MAX_MESSAGES,
{
    let mut filtered: Vec<ChatMessage> = Vec::new();
    let mut i: usize = 0;
    while i < history.len()
        invariant
            0 <= i <= history@.len(),
            filtered@ == newer_than(history@.take(i as int), since),
        decreases history.len() - i,
    {
        let m = &history[i];
        assert(history@.take(i + 1).drop_last() =~= history@.take(i as int));
        if m.ts > since {
            filtered.push(m.clone());
        }
        i += 1;
    }
    assert(history@.take(history@.len() as int) =~= history@);
    let start: usize = if filtered.len() > MAX_MESSAGES { filtered.len() - MAX_MESSAGES } else { 0 };
    let mut recent: Vec<ChatMessage> = Vec::new();
    let mut k: usize = start;
    while k < filtered.len()
        invariant
            start <= k <= filtered@.len(),
            recent@ == filtered@.subrange(start as int, k as int),
        decreases filtered.len() - k,
    {
        recent.push(filtered[k].clone());
        assert(filtered@.subrange(start as int, k + 1) =~= filtered@.subrange(start as int, k as int).push(
            filtered@[k as int],
        ));
        k += 1;
    }
    assert(recent@ =~= recent_messages(history@, since));
    let ghost r = recent@;
    proof {
        lemma_drop_to_fit(r, 0);
    }
    let mut d: usize = 0;
    loop
        invariant
            r == recent@,
            r == recent_messages(history@, since),
            r.len() <= MAX_MESSAGES,
            d <= drop_to_fit(r, 0),
            drop_to_fit(r, 0) <= r.len(),
            chat_list_bytes(r.skip(drop_to_fit(r, 0) as int)).len() <= MAX_RESPONSE_BYTES,
            forall|j: nat| j < drop_to_fit(r, 0) ==> chat_list_bytes(#[trigger] r.skip(j as int)).len()
                > MAX_RESPONSE_BYTES,
        decreases r.len() - d,
    {
        let encoded = encode_chat_messages(&recent, d);
        if encoded.len() <= MAX_RESPONSE_BYTES {
            assert(d == drop_to_fit(r, 0));
            return encoded;
        }
        d += 1;
    }
}

} // verus!
