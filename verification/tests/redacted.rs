use starling::logger::Redacted;

#[test]
fn secret_formatting_is_always_redacted() {
    let secret = Redacted([42_u8; 32]);
    assert_eq!(secret.to_string(), "[REDACTED]");
    assert_eq!(secret.debug_string(), "[REDACTED]");
}

#[test]
fn redaction_does_not_depend_on_the_value() {
    assert_eq!(Redacted(String::from("password")).to_string(), "[REDACTED]");
    assert_eq!(Redacted(0u8).debug_string(), "[REDACTED]");
}
