//! Starling: the verified protocol core of a federated, peer-to-peer chat
//! platform — canonical wire encodings, signed authority chains, membership,
//! permissions, admission, provisioning, presence, calls, history
//! validation and sync, the shareable codes, the profile and its code, and
//! release checksums.

pub mod admission;
pub mod assoc;
pub mod call;
pub mod config;
pub mod crypto;
pub mod descriptor;
pub mod event;
pub mod history;
pub mod keys;
pub mod logger;
pub mod membership;
pub mod net;
pub mod wire;
pub mod presence;
pub mod protocol;
pub mod provisioning;
pub mod release;
pub mod roost;
pub mod sync;
