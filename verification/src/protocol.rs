//! Protocol identifiers, framing and signed events.

pub mod event;
pub mod frame;
pub mod id;

pub use event::{EventHash, EventMetadataV1, EventUnsignedV1, SignedEventV1, MAX_EVENT_CIPHERTEXT, MAX_EVENT_PARENTS};
pub use frame::{FrameError, FrameHeader, HEADER_BYTES, KIND_EVENT_V1, MAGIC, MAJOR, MAX_BODY_BYTES};
pub use id::{CallId, ChannelId, FlockId, RoostId, SpaceId};
