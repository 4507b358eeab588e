//! Random identifiers of flocks, roosts, channels and calls, and the spaces
//! that events live in.

use vstd::prelude::*;
use crate::wire::{raw_at, read_array16, read_array32, read_u32, u32_at};

verus! {

#[derive(Clone, Copy, Debug, PartialEq, Eq, Hash)]
pub struct FlockId(pub [u8; 32]);

#[derive(Clone, Copy, Debug, PartialEq, Eq, Hash)]
pub struct RoostId(pub [u8; 32]);

#[derive(Clone, Copy, Debug, PartialEq, Eq, Hash)]
pub struct ChannelId(pub [u8; 16]);

#[derive(Clone, Copy, Debug, PartialEq, Eq, Hash)]
pub struct CallId(pub [u8; 16]);

/// Where an event lives: a flock, or one channel of a roost.
#[derive(Clone, Copy, Debug, PartialEq, Eq, Hash)]
pub enum SpaceId {
    Flock(FlockId),
    RoostChannel { roost: RoostId, channel: ChannelId },
}

/// 16 random bytes: the first half of 32.
fn random16() -> [u8; 16] {
    let b = crate::crypto::random32();
    [b[0], b[1], b[2], b[3], b[4], b[5], b[6], b[7], b[8], b[9], b[10], b[11], b[12], b[13], b[14], b[15]]
}

impl FlockId {
    pub fn random() -> FlockId {
        FlockId(crate::crypto::random32())
    }

    pub fn new() -> FlockId {
        Self::random()
    }
}

impl RoostId {
    pub fn random() -> RoostId {
        RoostId(crate::crypto::random32())
    }

    pub fn new() -> RoostId {
        Self::random()
    }
}

impl ChannelId {
    pub fn random() -> ChannelId {
        ChannelId(random16())
    }

    pub fn new() -> ChannelId {
        Self::random()
    }
}

impl CallId {
    pub fn random() -> CallId {
        CallId(random16())
    }

    pub fn new() -> CallId {
        Self::random()
    }
}

/// The canonical bytes of a space: its variant tag, then its identifiers.
pub open spec fn space_bytes(s: SpaceId) -> Seq<u8> {
    match s {
        SpaceId::Flock(f) => seq![0u8] + f.0@,
        SpaceId::RoostChannel { roost, channel } => seq![1u8] + roost.0@ + channel.0@,
    }
}

/// Appends the canonical bytes of a space.
pub fn push_space(out: &mut Vec<u8>, s: &SpaceId)
    ensures
        final(out)@ == old(out)@ + space_bytes(*s),
{
    match s {
        SpaceId::Flock(f) => {
            out.push(0u8);
            crate::wire::push_raw(out, &f.0);
            assert(out@ =~= old(out)@ + (seq![0u8] + f.0@));
        },
        SpaceId::RoostChannel { roost, channel } => {
            out.push(1u8);
            crate::wire::push_raw(out, &roost.0);
            crate::wire::push_raw(out, &channel.0);
            assert(out@ =~= old(out)@ + (seq![1u8] + roost.0@ + channel.0@));
        },
    }
}

/// Equality of two spaces.
pub fn space_eq(a: &SpaceId, b: &SpaceId) -> (eq: bool)
    ensures
        eq == (*a == *b),
{
    match (a, b) {
        (SpaceId::Flock(x), SpaceId::Flock(y)) => {
            let e = crate::keys::bytes32_eq(&x.0, &y.0);
            proof {
                if e {
                    assert(x.0 =~= y.0);
                }
            }
            e
        },
        (SpaceId::RoostChannel { roost: r1, channel: c1 }, SpaceId::RoostChannel { roost: r2, channel: c2 }) => {
            let e1 = crate::keys::bytes32_eq(&r1.0, &r2.0);
            let e2 = bytes16_eq(&c1.0, &c2.0);
            proof {
                if e1 && e2 {
                    assert(r1.0 =~= r2.0);
                    assert(c1.0 =~= c2.0);
                }
            }
            e1 && e2
        },
        _ => false,
    }
}

/// Equality of two 16-byte strings.
pub fn bytes16_eq(a: &[u8; 16], b: &[u8; 16]) -> (eq: bool)
    ensures
        eq == (a@ == b@),
{
    let mut i: usize = 0;
    while i < 16
        invariant
            0 <= i <= 16,
            a@.len() == 16,
            b@.len() == 16,
            forall|j: int| 0 <= j < i ==> a@[j] == b@[j],
        decreases 16 - i,
    {
        if a[i] != b[i] {
            return false;
        }
        i += 1;
    }
    assert(a@ =~= b@);
    true
}

/// A space at `pos`: a variant index, then its identifiers; given as its
/// canonical bytes.
pub open spec fn space_at(s: Seq<u8>, pos: int) -> Option<(Seq<u8>, int)> {
    match u32_at(s, pos) {
        None => None,
        Some((tag, p)) => if tag == 0 {
            match raw_at(s, p, 32) {
                None => None,
                Some((b, q)) => Some((seq![0u8] + b, q)),
            }
        } else if tag == 1 {
            match raw_at(s, p, 48) {
                None => None,
                Some((b, q)) => Some((seq![1u8] + b, q)),
            }
        } else {
            None
        },
    }
}

/// Reading back the canonical bytes of a space gives them.
pub proof fn lemma_space_at_encoding(pre: Seq<u8>, sp: SpaceId, rest: Seq<u8>)
    ensures
        space_at(pre + space_bytes(sp) + rest, pre.len() as int) == Some((space_bytes(sp), (pre.len() + space_bytes(sp).len()) as int)),
{
    let s = pre + space_bytes(sp) + rest;
    match sp {
        SpaceId::Flock(f) => {
            assert(s[pre.len() as int] == 0u8);
            assert(s =~= pre.push(0u8) + f.0@ + rest);
            crate::wire::lemma_raw_at_encoding(pre.push(0u8), f.0@, rest);
        },
        SpaceId::RoostChannel { roost, channel } => {
            assert(s[pre.len() as int] == 1u8);
            assert(s =~= pre.push(1u8) + (roost.0@ + channel.0@) + rest);
            crate::wire::lemma_raw_at_encoding(pre.push(1u8), roost.0@ + channel.0@, rest);
            assert(seq![1u8] + (roost.0@ + channel.0@) =~= space_bytes(sp));
        },
    }
}

/// A space is determined by its canonical bytes.
pub proof fn lemma_space_bytes_injective(a: SpaceId, b: SpaceId)
    requires
        space_bytes(a) == space_bytes(b),
    ensures
        a == b,
{
    let s = space_bytes(a);
    match (a, b) {
        (SpaceId::Flock(x), SpaceId::Flock(y)) => {
            assert(x.0@ =~= s.drop_first());
            assert(y.0@ =~= s.drop_first());
            assert(x.0 =~= y.0);
        },
        (SpaceId::RoostChannel { roost: r1, channel: c1 }, SpaceId::RoostChannel { roost: r2, channel: c2 }) => {
            assert(r1.0@ =~= s.subrange(1, 33));
            assert(r2.0@ =~= s.subrange(1, 33));
            assert(c1.0@ =~= s.subrange(33, 49));
            assert(c2.0@ =~= s.subrange(33, 49));
            assert(r1.0 =~= r2.0);
            assert(c1.0 =~= c2.0);
        },
        (SpaceId::Flock(_), SpaceId::RoostChannel { .. }) => {
            assert(space_bytes(a)[0] != space_bytes(b)[0]);
        },
        (SpaceId::RoostChannel { .. }, SpaceId::Flock(_)) => {
            assert(space_bytes(a)[0] != space_bytes(b)[0]);
        },
    }
}

pub fn read_space(s: &[u8], pos: usize) -> (r: Option<(SpaceId, usize)>)
    ensures
        match space_at(s@, pos as int) {
            None => r is None,
            Some((b, p)) => r matches Some((x, q)) && space_bytes(x) == b && q == p,
        },
{
    match read_u32(s, pos) {
        None => None,
        Some((tag, p)) => {
            if tag == 0 {
                match read_array32(s, p) {
                    None => None,
                    Some((f, q)) => Some((SpaceId::Flock(FlockId(f)), q)),
                }
            } else if tag == 1 {
                match read_array32(s, p) {
                    None => {
                        proof {
                            assert(raw_at(s@, p as int, 48) is None);
                        }
                        None
                    },
                    Some((roost, q)) => match read_array16(s, q) {
                        None => None,
                        Some((channel, q2)) => {
                            assert(s@.subrange(p as int, p + 48) =~= roost@ + channel@);
                            Some((SpaceId::RoostChannel { roost: RoostId(roost), channel: ChannelId(channel) }, q2))
                        },
                    },
                }
            } else {
                None
            }
        },
    }
}

} // verus!
