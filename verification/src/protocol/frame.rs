//! Fixed twelve-byte frame headers: magic, protocol major, frame kind and
//! body length, all big-endian.

use vstd::prelude::*;

verus! {

pub const MAGIC: [u8; 4] = [0x53u8, 0x54u8, 0x52u8, 0x4Cu8];
pub const MAJOR: u16 = 1;
pub const HEADER_BYTES: usize = 12;
pub const MAX_BODY_BYTES: usize = 1024 * 1024;

pub const KIND_EVENT_V1: u16 = 0x0001;

#[derive(Clone, Copy, Debug, PartialEq, Eq, Structural)]
pub struct FrameHeader {
    pub kind: u16,
    pub body_len: u32,
}

#[derive(Clone, Copy, Debug, PartialEq, Eq, Structural)]
pub enum FrameError {
    /// The body is longer than `MAX_BODY_BYTES`.
    BodyTooLarge,
    /// The first four bytes are not `MAGIC`.
    InvalidMagic,
    /// The protocol major is not `MAJOR`.
    UnsupportedVersion,
    /// Fewer than `HEADER_BYTES` bytes arrived.
    TruncatedHeader,
    /// The body ended before its announced length.
    TruncatedBody,
}

pub open spec fn be16(x: u16) -> Seq<u8> {
    seq![(x / 256) as u8, (x % 256) as u8]
}

pub open spec fn be32(x: u32) -> Seq<u8> {
    seq![(x / 0x100_0000) as u8, ((x / 0x1_0000) % 256) as u8, ((x / 256) % 256) as u8, (x % 256) as u8]
}

pub open spec fn from_be16(b: Seq<u8>, at: int) -> int {
    b[at] * 256 + b[at + 1]
}

pub open spec fn from_be32(b: Seq<u8>, at: int) -> int {
    b[at] * 0x100_0000 + b[at + 1] * 0x1_0000 + b[at + 2] * 256 + b[at + 3]
}

pub open spec fn magic() -> Seq<u8> {
    seq![0x53u8, 0x54u8, 0x52u8, 0x4Cu8]
}

/// The header's twelve bytes.
pub open spec fn header_bytes(h: FrameHeader) -> Seq<u8> {
    magic() + be16(MAJOR) + be16(h.kind) + be32(h.body_len)
}

/// What decoding twelve bytes yields.
pub open spec fn decode_spec(b: Seq<u8>) -> Result<FrameHeader, FrameError> {
    if b.take(4) != magic() {
        Err(FrameError::InvalidMagic)
    } else if from_be16(b, 4) != MAJOR {
        Err(FrameError::UnsupportedVersion)
    } else if from_be32(b, 8) > MAX_BODY_BYTES {
        Err(FrameError::BodyTooLarge)
    } else {
        Ok(FrameHeader { kind: from_be16(b, 6) as u16, body_len: from_be32(b, 8) as u32 })
    }
}

impl FrameHeader {
    /// A header for a body of `body_len` bytes; refused above `MAX_BODY_BYTES`.
    pub fn new(kind: u16, body_len: usize) -> (r: Result<FrameHeader, FrameError>)
        ensures
            body_len <= MAX_BODY_BYTES ==> r == Ok::<FrameHeader, FrameError>(
                FrameHeader { kind, body_len: body_len as u32 },
            ),
            body_len > MAX_BODY_BYTES ==> r == Err::<FrameHeader, FrameError>(FrameError::BodyTooLarge),
    {
        if body_len > MAX_BODY_BYTES {
            return Err(FrameError::BodyTooLarge);
        }
        Ok(FrameHeader { kind, body_len: body_len as u32 })
    }

    pub fn encode(self) -> (out: [u8; 12])
        ensures
            out@ == header_bytes(self),
    {
        let out: [u8; 12] = [
            0x53u8,
            0x54u8,
            0x52u8,
            0x4Cu8,
            (MAJOR / 256) as u8,
            (MAJOR % 256) as u8,
            (self.kind / 256) as u8,
            (self.kind % 256) as u8,
            (self.body_len / 0x100_0000) as u8,
            ((self.body_len / 0x1_0000) % 256) as u8,
            ((self.body_len / 256) % 256) as u8,
            (self.body_len % 256) as u8,
        ];
        assert(out@ =~= header_bytes(self));
        out
    }

    pub fn decode(bytes: [u8; 12]) -> (r: Result<FrameHeader, FrameError>)
        ensures
            r == decode_spec(bytes@),
    {
        if !(bytes[0] == 0x53u8 && bytes[1] == 0x54u8 && bytes[2] == 0x52u8 && bytes[3] == 0x4Cu8) {
            proof {
                if bytes@.take(4) == magic() {
                    assert(bytes@.take(4)[0] == bytes@[0]);
                    assert(bytes@.take(4)[1] == bytes@[1]);
                    assert(bytes@.take(4)[2] == bytes@[2]);
                    assert(bytes@.take(4)[3] == bytes@[3]);
                }
            }
            return Err(FrameError::InvalidMagic);
        }
        assert(bytes@.take(4) =~= magic());
        let major: u16 = (bytes[4] as u16) * 256 + bytes[5] as u16;
        if major != MAJOR {
            return Err(FrameError::UnsupportedVersion);
        }
        let kind: u16 = (bytes[6] as u16) * 256 + bytes[7] as u16;
        let body_len: u32 = (bytes[8] as u32) * 0x100_0000 + (bytes[9] as u32) * 0x1_0000 + (
        bytes[10] as u32) * 256 + bytes[11] as u32;
        Self::new(kind, body_len as usize)
    }
}

/// Decoding an encoded header gives the header back.
pub proof fn lemma_decode_encode(h: FrameHeader)
    requires
        h.body_len <= MAX_BODY_BYTES,
    ensures
        decode_spec(header_bytes(h)) == Ok::<FrameHeader, FrameError>(h),
{
    let b = header_bytes(h);
    assert(b.take(4) =~= magic());
}

/// A header that decodes encodes back to the same twelve bytes.
pub proof fn lemma_encode_decode(b: Seq<u8>)
    requires
        b.len() == 12,
        decode_spec(b) is Ok,
    ensures
        header_bytes(decode_spec(b)->Ok_0) == b,
{
    let h = decode_spec(b)->Ok_0;
    assert(b.take(4) == magic());
    assert(b[0] == b.take(4)[0] && b[1] == b.take(4)[1] && b[2] == b.take(4)[2] && b[3] == b.take(4)[3]);
    assert(header_bytes(h) =~= b);
}

/// The header and body of a frame read from `bytes` (header first, then
/// exactly `body_len` more bytes); what follows the body is left unread.
pub fn split_frame(bytes: &[u8]) -> (r: Result<(FrameHeader, Vec<u8>), FrameError>)
    ensures
        bytes@.len() < HEADER_BYTES ==> r == Err::<(FrameHeader, Vec<u8>), FrameError>(FrameError::TruncatedHeader),
        bytes@.len() >= HEADER_BYTES && decode_spec(bytes@.take(12)) is Err ==> r == Err::<(FrameHeader, Vec<u8>), FrameError>(decode_spec(bytes@.take(12))->Err_0),
        bytes@.len() >= HEADER_BYTES ==> (decode_spec(bytes@.take(12)) matches Ok(h) ==> {
            &&& bytes@.len() < 12 + h.body_len ==> r == Err::<(FrameHeader, Vec<u8>), FrameError>(FrameError::TruncatedBody)
            &&& bytes@.len() >= 12 + h.body_len ==> (r matches Ok((h2, body)) && h2 == h && body@ == bytes@.subrange(12, 12 + h.body_len))
        }),
{
    if bytes.len() < HEADER_BYTES {
        return Err(FrameError::TruncatedHeader);
    }
    let mut header = [0u8; 12];
    let mut i: usize = 0;
    while i < 12
        invariant
            0 <= i <= 12,
            bytes@.len() >= 12,
            forall|j: int| 0 <= j < i ==> header@[j] == bytes@[j],
        decreases 12 - i,
    {
        header[i] = bytes[i];
        i += 1;
    }
    assert(header@ =~= bytes@.take(12));
    let h = FrameHeader::decode(header)?;
    let len = h.body_len as usize;
    if bytes.len() - 12 < len {
        return Err(FrameError::TruncatedBody);
    }
    let mut body: Vec<u8> = Vec::new();
    let mut k: usize = 0;
    while k < len
        invariant
            0 <= k <= len,
            12 + len <= bytes.len(),
            body@ == bytes@.subrange(12, 12 + k),
        decreases len - k,
    {
        body.push(bytes[12 + k]);
        assert(bytes@.subrange(12, 12 + k + 1) =~= bytes@.subrange(12, 12 + k).push(bytes@[12 + k]));
        k += 1;
    }
    Ok((h, body))
}

} // verus!
