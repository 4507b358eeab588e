use starling::keys::{EndpointId, SecretKey};
use starling::protocol::id::{ChannelId, RoostId};
use starling::provisioning::{
    ChannelEpochKey, KeyUnwrapper, KeyWrapper, ProvisioningError, ProvisioningPackageMetadata,
    ProvisioningRequest, MAX_CONNECTION_BINDING_BYTES,
};

fn request(recipient: EndpointId, provider: EndpointId) -> ProvisioningRequest {
    ProvisioningRequest {
        major: 1,
        roost_id: RoostId([1; 32]),
        channel_id: ChannelId([2; 16]),
        epoch: 3,
        revision: 4,
        recipient,
        provider,
        auth_generation: 5,
        challenge: [6; 32],
        connection_binding: b"exporter".to_vec(),
    }
}

fn package(req: &ProvisioningRequest, key: &ChannelEpochKey) -> ProvisioningPackageMetadata {
    ProvisioningPackageMetadata {
        major: 1,
        roost_id: req.roost_id,
        channel_id: req.channel_id,
        epoch: req.epoch,
        revision: req.revision,
        recipient: req.recipient,
        provider: req.provider,
        auth_generation: req.auth_generation,
        challenge: req.challenge,
        key_confirmation: key.confirmation(req).unwrap(),
        wrapped_key: vec![1, 2],
        encrypted_bytes: vec![3, 4],
    }
}

#[test]
fn request_and_package_bind_all_metadata() {
    let recipient = SecretKey::generate();
    let provider = SecretKey::generate();
    let req = request(recipient.public(), provider.public());
    req.clone().sign(&recipient).unwrap().verify().unwrap();
    let key = ChannelEpochKey::new([9; 32]);
    let package = package(&req, &key);
    package.matches_request(&req).unwrap();
    let mut signed = package.sign(&provider).unwrap();
    signed.verify().unwrap();
    signed.package.encrypted_bytes[0] ^= 1;
    assert!(signed.verify().is_err());
}

#[test]
fn confirmation_and_strict_limits_work() {
    let recipient = SecretKey::generate();
    let provider = SecretKey::generate();
    let req = request(recipient.public(), provider.public());
    let key = ChannelEpochKey::new([7; 32]);
    let confirmation = key.confirmation(&req).unwrap();
    assert!(key.verify_confirmation(&req, &confirmation).unwrap());
    let mut changed = req.clone();
    changed.epoch += 1;
    assert!(!key.verify_confirmation(&changed, &confirmation).unwrap());
    let mut oversized = req;
    oversized.connection_binding = vec![0; MAX_CONNECTION_BINDING_BYTES + 1];
    assert!(oversized.validate_shape().is_err());
}

struct Wrapper;

impl KeyWrapper for Wrapper {
    fn wrap_key(&self, _: &ProvisioningRequest, key: &ChannelEpochKey) -> Result<Vec<u8>, String> {
        Ok(key.expose().iter().map(|byte| byte ^ 0xaa).collect())
    }
}

impl KeyUnwrapper for Wrapper {
    fn unwrap_key(&self, _: &ProvisioningPackageMetadata, wrapped: &[u8]) -> Result<ChannelEpochKey, String> {
        let bytes: Vec<_> = wrapped.iter().map(|byte| byte ^ 0xaa).collect();
        Ok(ChannelEpochKey::new(bytes.try_into().map_err(|_| "length".to_string())?))
    }
}

#[test]
fn wrapper_is_caller_supplied() {
    let recipient = SecretKey::generate();
    let provider = SecretKey::generate();
    let req = request(recipient.public(), provider.public());
    let key = ChannelEpochKey::new([4; 32]);
    let wrapped = Wrapper.wrap_key(&req, &key).unwrap();
    assert_eq!(wrapped, vec![0xae; 32]);
    let unwrapped = Wrapper.unwrap_key(&package(&req, &key), &wrapped).unwrap();
    assert_eq!(unwrapped.expose(), &[4; 32]);
}

#[test]
fn provisioning_refusals_name_their_reason() {
    let recipient = SecretKey::generate();
    let provider = SecretKey::generate();
    let req = request(recipient.public(), provider.public());
    let key = ChannelEpochKey::new([9; 32]);
    let mut other = req.clone();
    other.epoch = 99;
    assert!(package(&req, &key).matches_request(&other).is_err());
    let mut no_binding = req.clone();
    no_binding.connection_binding.clear();
    assert!(no_binding.validate_shape().is_err());
    assert!(req.clone().sign(&provider).is_err());
    assert!(package(&req, &key).sign(&recipient).is_err());
    let mut zero = req;
    zero.roost_id = RoostId([0; 32]);
    assert!(matches!(zero.validate_shape(), Err(ProvisioningError::RoostIdZero)));
}
