use std::collections::HashMap;

use starling::keys::{EndpointId, SecretKey};
use starling::protocol::id::{ChannelId, RoostId};
use starling::roost::{
    ChannelV1, ManifestHash, ManifestV1, ManifestValidationHooks, RoostError, MANIFEST_VERSION,
    MAX_ROOST_NAME_BYTES,
};

fn manifest(authority: EndpointId) -> ManifestV1 {
    ManifestV1 {
        version: MANIFEST_VERSION,
        roost_id: RoostId([1; 32]),
        name: "Nest".into(),
        revision: 0,
        previous: None,
        authority,
        membership_epoch: 3,
        channels: vec![ChannelV1 {
            id: ChannelId([2; 16]),
            name: "general".into(),
            key_epoch: 1,
        }],
    }
}

struct Hooks {
    allowed: EndpointId,
    manifests: HashMap<ManifestHash, ManifestV1>,
}

impl ManifestValidationHooks for Hooks {
    fn authority_may_publish(&self, _: &RoostId, _: u64, authority: &EndpointId) -> Result<(), String> {
        if *authority == self.allowed {
            Ok(())
        } else {
            Err("not allowed".to_string())
        }
    }

    fn known_manifest(&self, hash: &ManifestHash) -> Result<Option<ManifestV1>, String> {
        Ok(self.manifests.get(hash).cloned())
    }
}

#[test]
fn signs_hashes_and_validates_revision_chain() {
    let key = SecretKey::generate();
    let first = manifest(key.public());
    let first_hash = first.hash().unwrap();
    let mut second = first.clone();
    second.revision = 1;
    second.previous = Some(first_hash);
    let signed = second.sign(&key).unwrap();
    let hooks = Hooks {
        allowed: key.public(),
        manifests: [(first_hash, first)].into(),
    };
    signed.validate_with(&hooks).unwrap();
    signed.verify().unwrap();
}

#[test]
fn rejects_tampering_duplicates_limits_and_broken_chains() {
    let key = SecretKey::generate();
    let mut signed = manifest(key.public()).sign(&key).unwrap();
    signed.manifest.name.push('!');
    assert!(signed.verify().is_err());

    let mut duplicate = manifest(key.public());
    duplicate.channels.push(duplicate.channels[0].clone());
    assert!(duplicate.validate_shape().is_err());
    duplicate.channels.clear();
    duplicate.name = "x".repeat(MAX_ROOST_NAME_BYTES + 1);
    assert!(duplicate.validate_shape().is_err());

    let first = manifest(key.public());
    let hash = first.hash().unwrap();
    let mut later = first.clone();
    later.revision = 2;
    later.previous = Some(hash);
    let hooks = Hooks {
        allowed: key.public(),
        manifests: [(hash, first)].into(),
    };
    assert!(later.sign(&key).unwrap().validate_with(&hooks).is_err());
}

#[test]
fn manifest_refusals_name_their_reason() {
    let key = SecretKey::generate();
    let mut m = manifest(key.public());
    m.version = 2;
    assert_eq!(m.validate_shape(), Err(RoostError::UnsupportedVersion));
    let mut m = manifest(key.public());
    m.roost_id = RoostId([0; 32]);
    assert_eq!(m.validate_shape(), Err(RoostError::RoostIdZero));
    let mut m = manifest(key.public());
    m.name = String::new();
    assert_eq!(m.validate_shape(), Err(RoostError::NameEmpty));
    let mut m = manifest(key.public());
    m.revision = 1;
    assert_eq!(m.validate_shape(), Err(RoostError::GenesisMismatch));
    let mut m = manifest(key.public());
    m.channels[0].id = ChannelId([0; 16]);
    assert_eq!(m.validate_shape(), Err(RoostError::ChannelIdZero));
    let mut m = manifest(key.public());
    m.channels.push(ChannelV1 { id: ChannelId([3; 16]), name: "general".into(), key_epoch: 1 });
    assert_eq!(m.validate_shape(), Err(RoostError::DuplicateChannelName));
    let mut m = manifest(key.public());
    m.channels.push(ChannelV1 { id: ChannelId([2; 16]), name: "random".into(), key_epoch: 1 });
    assert_eq!(m.validate_shape(), Err(RoostError::DuplicateChannelId));

    let other = SecretKey::generate();
    let signed = manifest(key.public()).sign(&other);
    assert_eq!(signed.err(), Some(RoostError::AuthorityMismatch));

    let hooks = Hooks { allowed: other.public(), manifests: HashMap::new() };
    let signed = manifest(key.public()).sign(&key).unwrap();
    assert_eq!(signed.validate_with(&hooks), Err(RoostError::Policy("not allowed".to_string())));

    let hooks = Hooks { allowed: key.public(), manifests: HashMap::new() };
    let mut later = manifest(key.public());
    later.revision = 1;
    later.previous = Some([7; 32]);
    assert_eq!(later.sign(&key).unwrap().validate_with(&hooks), Err(RoostError::UnknownPredecessor));
}

#[test]
fn manifest_hash_is_stable_and_binds_the_name() {
    let key = SecretKey::from_bytes(&[5; 32]);
    let a = manifest(key.public());
    let mut b = manifest(key.public());
    assert_eq!(a.hash().unwrap(), b.hash().unwrap());
    b.name = "Other".into();
    assert_ne!(a.hash().unwrap(), b.hash().unwrap());
}
