use sha2::Digest;
use starling::keys::SecretKey;
use starling::net::{
    decode_node_id, decode_typed_code, encode_flock_code, encode_node_id, encode_roost_code,
    encode_typed_code, room_code_from_node_id, topic_for, typed_code_node_id, CodeType,
};

#[test]
fn typed_codes_round_trip_without_separators() {
    for code_type in [CodeType::Flock, CodeType::Roost] {
        let encoded = encode_typed_code(code_type, &[1, 2, 3, 4, 5]);
        assert!(!encoded.contains('-'));
        let decoded = decode_typed_code(&encoded).expect("valid typed code");
        assert_eq!(decoded.code_type, code_type);
        assert_eq!(decoded.payload, [1, 2, 3, 4, 5]);
    }
}

#[test]
fn typed_codes_reject_unknown_tags_and_empty_payloads() {
    assert!(decode_typed_code("AA").is_none());
    assert!(decode_typed_code("7YAA").is_none());
}

#[test]
fn typed_codes_are_trimmed_and_case_insensitive() {
    let encoded = encode_flock_code(&[9, 8, 7]);
    let messy = format!("  {}\n", encoded.to_ascii_lowercase());
    let decoded = decode_typed_code(&messy).expect("valid typed code");
    assert_eq!(decoded.code_type, CodeType::Flock);
    assert_eq!(decoded.payload, [9, 8, 7]);
    assert!(decode_typed_code("").is_none());
    assert!(decode_typed_code("AE-AQ").is_none());
}

#[test]
fn roost_codes_carry_the_node() {
    let key = SecretKey::from_bytes(&[3; 32]).public();
    let code = encode_roost_code(&key);
    let decoded = decode_typed_code(&code).unwrap();
    assert_eq!(decoded.code_type, CodeType::Roost);
    assert_eq!(typed_code_node_id(&decoded), Some(key));
    let flock = decode_typed_code(&encode_flock_code(&[1, 2])).unwrap();
    assert_eq!(typed_code_node_id(&flock), None);
}

#[test]
fn bird_codes_round_trip() {
    let key = SecretKey::from_bytes(&[5; 32]).public();
    let code = encode_node_id(&key);
    assert_eq!(code.len(), 81);
    assert!(code.starts_with("BIRD-"));
    assert_eq!(code.split('-').count(), 12);
    assert_eq!(room_code_from_node_id(&key), code);
    assert_eq!(decode_node_id(&code), Some(key));
    assert_eq!(decode_node_id(&code.to_ascii_lowercase().replace("bird", "BIRD")), Some(key));
    assert_eq!(decode_node_id("BIRD-"), None);
    let mut bad = code.clone();
    bad.replace_range(80..81, "1");
    assert_eq!(decode_node_id(&bad), None);
}

#[test]
fn bird_code_spells_the_key_in_hex() {
    let key = SecretKey::from_bytes(&[5; 32]).public();
    let code = encode_node_id(&key);
    let hex: String = key.0.iter().map(|b| format!("{:02X}", b)).collect();
    let digits: String = code[5..].split('-').collect();
    assert_eq!(&digits[..64], hex);
    assert_eq!(&digits[64..], "00");
}

#[test]
fn topics_are_sha256_of_the_name() {
    let expected: [u8; 32] = sha2::Sha256::digest(b"general").into();
    assert_eq!(topic_for("general").0, expected);
}
