use sha2::Digest;
use starling::release::{check_release_checksum, hex_lower_text};

fn digest_hex(body: &[u8]) -> String {
    sha2::Sha256::digest(body).iter().map(|b| format!("{b:02x}")).collect()
}

#[test]
fn checksum_file_first_word_must_match() {
    let body = b"binary contents";
    let good = format!("{}  starling-x86_64-unknown-linux-gnu\n", digest_hex(body));
    assert_eq!(check_release_checksum(&good, body), Ok(()));
    assert_eq!(check_release_checksum(&format!("\n\t {}", digest_hex(body)), body), Ok(()));
    let bad = "00ff  starling";
    assert_eq!(
        check_release_checksum(bad, body),
        Err(("00ff".to_string(), digest_hex(body)))
    );
    assert_eq!(
        check_release_checksum("   ", body),
        Err((String::new(), digest_hex(body)))
    );
    // upper-case digests are not accepted
    assert!(check_release_checksum(&digest_hex(body).to_uppercase(), body).is_err());
}

#[test]
fn lower_hex_text() {
    assert_eq!(hex_lower_text(&[0x00, 0xab, 0x7f]), "00ab7f");
    assert_eq!(hex_lower_text(&[]), "");
}
