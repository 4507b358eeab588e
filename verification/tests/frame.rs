use starling::protocol::frame::{split_frame, FrameError};
use starling::protocol::{FrameHeader, HEADER_BYTES, KIND_EVENT_V1, MAGIC, MAJOR, MAX_BODY_BYTES};

#[test]
fn header_round_trips() {
    let header = FrameHeader::new(KIND_EVENT_V1, 1_024).expect("valid header");
    let encoded = header.encode();

    assert_eq!(&encoded[..4], &MAGIC);
    assert_eq!(u16::from_be_bytes(encoded[4..6].try_into().unwrap()), MAJOR);
    assert_eq!(FrameHeader::decode(encoded).unwrap(), header);
}

#[test]
fn rejects_invalid_magic_version_and_oversized_bodies() {
    let mut invalid_magic = FrameHeader::new(1, 0).unwrap().encode();
    invalid_magic[0] ^= 0xff;
    assert!(FrameHeader::decode(invalid_magic).is_err());

    let mut invalid_version = FrameHeader::new(1, 0).unwrap().encode();
    invalid_version[4..6].copy_from_slice(&(MAJOR + 1).to_be_bytes());
    assert!(FrameHeader::decode(invalid_version).is_err());
    assert!(FrameHeader::new(1, MAX_BODY_BYTES + 1).is_err());

    let mut oversized = [0_u8; HEADER_BYTES];
    oversized[..4].copy_from_slice(&MAGIC);
    oversized[4..6].copy_from_slice(&MAJOR.to_be_bytes());
    oversized[6..8].copy_from_slice(&1_u16.to_be_bytes());
    oversized[8..12].copy_from_slice(&u32::MAX.to_be_bytes());
    assert!(FrameHeader::decode(oversized).is_err());
}

#[test]
fn rejects_truncated_header_and_body() {
    let short_header = &FrameHeader::new(1, 0).unwrap().encode()[..8];
    assert_eq!(split_frame(short_header).err(), Some(FrameError::TruncatedHeader));

    let mut bytes = FrameHeader::new(1, 5).unwrap().encode().to_vec();
    bytes.extend_from_slice(b"four");
    assert_eq!(split_frame(&bytes).err(), Some(FrameError::TruncatedBody));
}

#[test]
fn framed_bytes_split_into_header_and_body() {
    let mut bytes = FrameHeader::new(7, 5).unwrap().encode().to_vec();
    bytes.extend_from_slice(b"hello");
    bytes.extend_from_slice(b"rest");
    let (header, body) = split_frame(&bytes).expect("read frame");
    assert_eq!(header.kind, 7);
    assert_eq!(body, b"hello");
    assert_eq!(
        FrameHeader::new(1, 0).unwrap().encode(),
        [0x53, 0x54, 0x52, 0x4c, 0, 1, 0, 1, 0, 0, 0, 0]
    );
    let mut bad = FrameHeader::new(1, 0).unwrap().encode();
    bad[5] = 2;
    assert_eq!(FrameHeader::decode(bad), Err(FrameError::UnsupportedVersion));
    assert_eq!(FrameHeader::new(1, MAX_BODY_BYTES + 1), Err(FrameError::BodyTooLarge));
}
