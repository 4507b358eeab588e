use starling::config::{
    parse_profile_field, LegacyProfile, Profile, ProfileField, DEFAULT_ACCENT_COLOR, DEFAULT_AUTHOR_COLOR, DEFAULT_BG_COLOR,
    DEFAULT_BORDER_COLOR, DEFAULT_DIM_COLOR, DEFAULT_SELECTION_COLOR, DEFAULT_TEXT_COLOR,
};

#[test]
fn legacy_profile_uses_default_palette() {
    let legacy = LegacyProfile {
        name: "Bird".into(),
        pronouns: "they/them".into(),
        input_device: None,
        output_device: None,
        text_color: "#010203".into(),
        bg_color: String::new(),
        border_color: "#040506".into(),
    };
    let profile = Profile::from_legacy(legacy);

    assert_eq!(profile.text_color, "#010203");
    assert_eq!(profile.border_color, "#040506");
    assert_eq!(profile.accent_color, DEFAULT_ACCENT_COLOR);
    assert_eq!(profile.author_color, DEFAULT_AUTHOR_COLOR);
    assert_eq!(profile.selection_color, DEFAULT_SELECTION_COLOR);
    assert_eq!(profile.dim_color, DEFAULT_DIM_COLOR);
    assert_eq!(profile.name, "Bird");
    assert_eq!(profile.pronouns, "they/them");
}

#[test]
fn profile_code_truncates_on_utf8_boundary() {
    let profile = Profile {
        name: "abcdefghijklmn🦅".into(),
        ..Profile::default()
    };

    let decoded = Profile::from_code(&profile.to_code()).expect("valid profile code");
    assert_eq!(decoded.name, "abcdefghijklmn");
}

#[test]
fn default_profile_uses_the_palette() {
    let p = Profile::default();
    assert_eq!(p.name, "");
    assert_eq!(p.pronouns, "");
    assert_eq!(p.input_device, None);
    assert_eq!(p.text_color, DEFAULT_TEXT_COLOR);
    assert_eq!(p.bg_color, DEFAULT_BG_COLOR);
    assert_eq!(p.border_color, DEFAULT_BORDER_COLOR);
    assert_eq!(DEFAULT_TEXT_COLOR, "#CFD6D2");
}

#[test]
fn profile_code_layout() {
    let profile = Profile { name: "Bo".into(), ..Profile::default() };
    assert_eq!(profile.to_code(), format!("02426F{}", "0".repeat(26)));
    let long = Profile { name: "abcdefghijklmnopqrstuvwxyz".into(), ..Profile::default() };
    let decoded = Profile::from_code(&long.to_code()).unwrap();
    assert_eq!(decoded.name, "abcdefghijklmno");
    assert_eq!(decoded.accent_color, DEFAULT_ACCENT_COLOR);
}

#[test]
fn profile_codes_are_checked() {
    assert!(Profile::from_code("").is_none());
    assert!(Profile::from_code("0").is_none());
    // lower-case hex is not accepted
    assert!(Profile::from_code(&format!("02426f{}", "0".repeat(26))).is_none());
    // a length over fifteen
    assert!(Profile::from_code("10000000000000000000000000000000").is_none());
    // fifteen bytes that are not UTF-8
    assert!(Profile::from_code(&format!("01FF{}", "0".repeat(28))).is_none());
    // seventeen bytes
    assert!(Profile::from_code("0000000000000000000000000000000000").is_none());
    assert_eq!(Profile::from_code("00000000000000000000000000000000").unwrap().name, "");
}

#[test]
fn profile_fields_are_set_by_name() {
    assert_eq!(parse_profile_field("author-color"), Some(ProfileField::AuthorColor));
    assert_eq!(parse_profile_field("author_color"), Some(ProfileField::AuthorColor));
    assert_eq!(parse_profile_field("name"), Some(ProfileField::Name));
    assert_eq!(parse_profile_field("input-device"), Some(ProfileField::InputDevice));
    assert_eq!(parse_profile_field("colour"), None);
    let mut p = Profile::default();
    p.set_field(ProfileField::AuthorColor, "#123456");
    p.set_field(ProfileField::InputDevice, "mic");
    assert_eq!(p.author_color, "#123456");
    assert_eq!(p.input_device.as_deref(), Some("mic"));
    assert_eq!(p.dim_color, DEFAULT_DIM_COLOR);
    assert_eq!(p.name, "");
}
