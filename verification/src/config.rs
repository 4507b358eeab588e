//! The bird's profile: its display settings, the palette defaults, the
//! migration of profiles saved before the palette grew, and the short hex
//! profile code that carries a name.

use vstd::prelude::*;
use vstd::string::StringExecFns;
use vstd::string::StringSliceAdditionalSpecFns;
use vstd::utf8::{decode_utf8, encode_utf8, is_char_boundary, valid_utf8};
use crate::wire::{string_from_utf8, text_eq};

verus! {

pub const DEFAULT_TEXT_COLOR: &'static str = "#CFD6D2";
pub const DEFAULT_BG_COLOR: &'static str = "";
pub const DEFAULT_BORDER_COLOR: &'static str = "#333B37";
pub const DEFAULT_ACCENT_COLOR: &'static str = "#6FAE9D";
pub const DEFAULT_AUTHOR_COLOR: &'static str = "#F48A52";
pub const DEFAULT_SELECTION_COLOR: &'static str = "#E0D267";
pub const DEFAULT_DIM_COLOR: &'static str = "#5F6862";

#[derive(Debug)]
pub struct Profile {
    pub name: String,
    pub pronouns: String,
    pub input_device: Option<String>,
    pub output_device: Option<String>,
    pub text_color: String,
    pub bg_color: String,
    pub border_color: String,
    pub accent_color: String,
    pub author_color: String,
    pub selection_color: String,
    pub dim_color: String,
}

/// A profile as saved before the accent, author, selection and dim colours
/// existed.
#[derive(Debug)]
pub struct LegacyProfile {
    pub name: String,
    pub pronouns: String,
    pub input_device: Option<String>,
    pub output_device: Option<String>,
    pub text_color: String,
    pub bg_color: String,
    pub border_color: String,
}

/// The four colours a legacy profile lacks hold their defaults.
pub open spec fn has_default_palette_extension(p: Profile) -> bool {
    &&& p.accent_color@ == DEFAULT_ACCENT_COLOR@
    &&& p.author_color@ == DEFAULT_AUTHOR_COLOR@
    &&& p.selection_color@ == DEFAULT_SELECTION_COLOR@
    &&& p.dim_color@ == DEFAULT_DIM_COLOR@
}

/// Every setting but the name holds its default.
pub open spec fn has_default_settings(p: Profile) -> bool {
    &&& p.pronouns@ == Seq::<char>::empty()
    &&& p.input_device is None
    &&& p.output_device is None
    &&& p.text_color@ == DEFAULT_TEXT_COLOR@
    &&& p.bg_color@ == DEFAULT_BG_COLOR@
    &&& p.border_color@ == DEFAULT_BORDER_COLOR@
    &&& has_default_palette_extension(p)
}

fn clone_option_string(o: &Option<String>) -> (r: Option<String>)
    ensures
        r == *o,
{
    match o {
        Some(s) => Some(s.clone()),
        None => None,
    }
}

impl Clone for Profile {
    fn clone(&self) -> (p: Profile)
        ensures
            p == *self,
    {
        Profile {
            name: self.name.clone(),
            pronouns: self.pronouns.clone(),
            input_device: clone_option_string(&self.input_device),
            output_device: clone_option_string(&self.output_device),
            text_color: self.text_color.clone(),
            bg_color: self.bg_color.clone(),
            border_color: self.border_color.clone(),
            accent_color: self.accent_color.clone(),
            author_color: self.author_color.clone(),
            selection_color: self.selection_color.clone(),
            dim_color: self.dim_color.clone(),
        }
    }
}

impl Default for Profile {
    fn default() -> (p: Profile)
        ensures
            p.name@ == Seq::<char>::empty(),
            has_default_settings(p),
    {
        Profile {
            name: String::new(),
            pronouns: String::new(),
            input_device: None,
            output_device: None,
            text_color: String::from_str(DEFAULT_TEXT_COLOR),
            bg_color: String::from_str(DEFAULT_BG_COLOR),
            border_color: String::from_str(DEFAULT_BORDER_COLOR),
            accent_color: String::from_str(DEFAULT_ACCENT_COLOR),
            author_color: String::from_str(DEFAULT_AUTHOR_COLOR),
            selection_color: String::from_str(DEFAULT_SELECTION_COLOR),
            dim_color: String::from_str(DEFAULT_DIM_COLOR),
        }
    }
}

/// The profile a legacy one migrates to: its seven fields kept, the
/// missing colours at their defaults.
pub open spec fn migrated(legacy: LegacyProfile, p: Profile) -> bool {
    &&& p.name == legacy.name
    &&& p.pronouns == legacy.pronouns
    &&& p.input_device == legacy.input_device
    &&& p.output_device == legacy.output_device
    &&& p.text_color == legacy.text_color
    &&& p.bg_color == legacy.bg_color
    &&& p.border_color == legacy.border_color
    &&& has_default_palette_extension(p)
}

impl Profile {
    /// Migrates a legacy profile.
    pub fn from_legacy(legacy: LegacyProfile) -> (p: Profile)
        ensures
            migrated(legacy, p),
    {
        let defaults = Profile::default();
        Profile {
            name: legacy.name,
            pronouns: legacy.pronouns,
            input_device: legacy.input_device,
            output_device: legacy.output_device,
            text_color: legacy.text_color,
            bg_color: legacy.bg_color,
            border_color: legacy.border_color,
            accent_color: defaults.accent_color,
            author_color: defaults.author_color,
            selection_color: defaults.selection_color,
            dim_color: defaults.dim_color,
        }
    }
}

/// A setting of the profile that can be set by name.
#[derive(Clone, Copy, Debug, PartialEq, Eq, Structural)]
pub enum ProfileField {
    Name,
    Pronouns,
    InputDevice,
    OutputDevice,
    TextColor,
    BgColor,
    BorderColor,
    AccentColor,
    AuthorColor,
    SelectionColor,
    DimColor,
}

/// The setting a name stands for; the names of two words may be written
/// with a hyphen or an underscore.
pub open spec fn field_named(n: Seq<char>) -> Option<ProfileField> {
    if n == "name"@ {
        Some(ProfileField::Name)
    } else if n == "pronouns"@ {
        Some(ProfileField::Pronouns)
    } else if n == "input-device"@ || n == "input_device"@ {
        Some(ProfileField::InputDevice)
    } else if n == "output-device"@ || n == "output_device"@ {
        Some(ProfileField::OutputDevice)
    } else if n == "text-color"@ || n == "text_color"@ {
        Some(ProfileField::TextColor)
    } else if n == "bg-color"@ || n == "bg_color"@ {
        Some(ProfileField::BgColor)
    } else if n == "border-color"@ || n == "border_color"@ {
        Some(ProfileField::BorderColor)
    } else if n == "accent-color"@ || n == "accent_color"@ {
        Some(ProfileField::AccentColor)
    } else if n == "author-color"@ || n == "author_color"@ {
        Some(ProfileField::AuthorColor)
    } else if n == "selection-color"@ || n == "selection_color"@ {
        Some(ProfileField::SelectionColor)
    } else if n == "dim-color"@ || n == "dim_color"@ {
        Some(ProfileField::DimColor)
    } else {
        None
    }
}

/// The setting a name stands for, if any.
pub fn parse_profile_field(n: &str) -> (r: Option<ProfileField>)
    ensures
        r == field_named(n@),
{
    if text_eq(n, "name") {
        Some(ProfileField::Name)
    } else if text_eq(n, "pronouns") {
        Some(ProfileField::Pronouns)
    } else if text_eq(n, "input-device") || text_eq(n, "input_device") {
        Some(ProfileField::InputDevice)
    } else if text_eq(n, "output-device") || text_eq(n, "output_device") {
        Some(ProfileField::OutputDevice)
    } else if text_eq(n, "text-color") || text_eq(n, "text_color") {
        Some(ProfileField::TextColor)
    } else if text_eq(n, "bg-color") || text_eq(n, "bg_color") {
        Some(ProfileField::BgColor)
    } else if text_eq(n, "border-color") || text_eq(n, "border_color") {
        Some(ProfileField::BorderColor)
    } else if text_eq(n, "accent-color") || text_eq(n, "accent_color") {
        Some(ProfileField::AccentColor)
    } else if text_eq(n, "author-color") || text_eq(n, "author_color") {
        Some(ProfileField::AuthorColor)
    } else if text_eq(n, "selection-color") || text_eq(n, "selection_color") {
        Some(ProfileField::SelectionColor)
    } else if text_eq(n, "dim-color") || text_eq(n, "dim_color") {
        Some(ProfileField::DimColor)
    } else {
        None
    }
}

/// The profile `p` with one setting replaced by `v`; a device is set to
/// `Some(v)`.
pub open spec fn with_field(old: Profile, new: Profile, f: ProfileField, v: Seq<char>) -> bool {
    &&& (if f == ProfileField::Name { new.name@ == v } else { new.name == old.name })
    &&& (if f == ProfileField::Pronouns { new.pronouns@ == v } else { new.pronouns == old.pronouns })
    &&& (if f == ProfileField::InputDevice { new.input_device matches Some(d) && d@ == v } else { new.input_device == old.input_device })
    &&& (if f == ProfileField::OutputDevice { new.output_device matches Some(d) && d@ == v } else { new.output_device == old.output_device })
    &&& (if f == ProfileField::TextColor { new.text_color@ == v } else { new.text_color == old.text_color })
    &&& (if f == ProfileField::BgColor { new.bg_color@ == v } else { new.bg_color == old.bg_color })
    &&& (if f == ProfileField::BorderColor { new.border_color@ == v } else { new.border_color == old.border_color })
    &&& (if f == ProfileField::AccentColor { new.accent_color@ == v } else { new.accent_color == old.accent_color })
    &&& (if f == ProfileField::AuthorColor { new.author_color@ == v } else { new.author_color == old.author_color })
    &&& (if f == ProfileField::SelectionColor { new.selection_color@ == v } else { new.selection_color == old.selection_color })
    &&& (if f == ProfileField::DimColor { new.dim_color@ == v } else { new.dim_color == old.dim_color })
}

impl Profile {
    /// Sets one setting to `value`, leaving the others as they were.
    pub fn set_field(&mut self, field: ProfileField, value: &str)
        ensures
            with_field(*old(self), *final(self), field, value@),
    {
        let v = String::from_str(value);
        match field {
            ProfileField::Name => self.name = v,
            ProfileField::Pronouns => self.pronouns = v,
            ProfileField::InputDevice => self.input_device = Some(v),
            ProfileField::OutputDevice => self.output_device = Some(v),
            ProfileField::TextColor => self.text_color = v,
            ProfileField::BgColor => self.bg_color = v,
            ProfileField::BorderColor => self.border_color = v,
            ProfileField::AccentColor => self.accent_color = v,
            ProfileField::AuthorColor => self.author_color = v,
            ProfileField::SelectionColor => self.selection_color = v,
            ProfileField::DimColor => self.dim_color = v,
        }
    }
}

/// The upper-case hex digit of a value below sixteen.
pub open spec fn upper_hex_char(v: int) -> char {
    if v < 10 { (48 + v) as char } else { (55 + v) as char }
}

/// Upper-case hex text of some bytes, two digits a byte, high half first.
pub open spec fn hex_upper(b: Seq<u8>) -> Seq<char> {
    Seq::new(
        2 * b.len(),
        |i: int| if i % 2 == 0 { upper_hex_char((b[i / 2] / 16) as int) } else { upper_hex_char((b[i / 2] % 16) as int) },
    )
}

/// The value of an upper-case hex digit.
pub open spec fn upper_hex_value(c: u8) -> Option<u8> {
    if 48 <= c <= 57 {
        Some((c - 48) as u8)
    } else if 65 <= c <= 70 {
        Some((c - 55) as u8)
    } else {
        None
    }
}

/// The bytes upper-case hex text stands for: `None` when its length is odd
/// or a character is not an upper-case hex digit.
pub open spec fn hex_upper_bytes(s: Seq<u8>) -> Option<Seq<u8>> {
    if s.len() % 2 == 1 || exists|i: int| 0 <= i < s.len() && #[trigger] upper_hex_value(s[i]) is None {
        None
    } else {
        Some(
            Seq::new(
                s.len() / 2,
                |i: int| (upper_hex_value(s[2 * i])->0 * 16 + upper_hex_value(s[2 * i + 1])->0) as u8,
            ),
        )
    }
}

/// Upper-case hex encoding: wraps `data_encoding::HEXUPPER.encode`, which
/// writes the digits `0-9A-F`, two a byte, high half first (and may panic
/// above the length bound).
#[verifier::external_body]
fn hex_upper_encode(input: &[u8]) -> (s: String)
    requires
        input@.len() <= usize::MAX / 512,
    ensures
        s@ == hex_upper(input@),
{
    data_encoding::HEXUPPER.encode(input)
}

/// Upper-case hex decoding: wraps `data_encoding::HEXUPPER.decode`, which
/// refuses an odd length and any character outside `0-9A-F` (and may panic
/// above the length bound).
#[verifier::external_body]
fn hex_upper_decode(input: &[u8]) -> (r: Option<Vec<u8>>)
    requires
        input@.len() <= usize::MAX / 8,
    ensures
        match r {
            Some(b) => hex_upper_bytes(input@) == Some(b@),
            None => hex_upper_bytes(input@) is None,
        },
{
    match data_encoding::HEXUPPER.decode(input) {
        Ok(bytes) => Some(bytes),
        Err(_) => None,
    }
}

/// The largest character boundary at or below `l`.
pub open spec fn boundary_floor(b: Seq<u8>, l: nat) -> nat
    decreases l,
{
    if l == 0 || is_char_boundary(b, l as int) {
        l
    } else {
        boundary_floor(b, (l - 1) as nat)
    }
}

/// How many bytes of a name a profile code keeps: at most fifteen, cut at a
/// character boundary.
pub open spec fn code_name_len(name: Seq<char>) -> nat {
    let b = encode_utf8(name);
    boundary_floor(b, if b.len() < 15 { b.len() } else { 15 })
}

/// The sixteen bytes behind a profile code: the kept length, the kept
/// bytes of the name, zeros.
pub open spec fn profile_code_bytes(name: Seq<char>) -> Seq<u8> {
    let b = encode_utf8(name);
    let n = code_name_len(name);
    seq![n as u8] + b.take(n as int) + Seq::new((15 - n) as nat, |i: int| 0u8)
}

/// The name a profile code carries: sixteen hex-encoded bytes, a length of
/// at most fifteen, then that many bytes of valid UTF-8.
pub open spec fn code_name(code: Seq<u8>) -> Option<Seq<char>> {
    match hex_upper_bytes(code) {
        None => None,
        Some(b) => if b.len() != 16 || b[0] > 15 || !valid_utf8(b.subrange(1, 1 + b[0] as int)) {
            None
        } else {
            Some(decode_utf8(b.subrange(1, 1 + b[0] as int)))
        },
    }
}

proof fn lemma_boundary_floor(b: Seq<u8>, l: nat)
    requires
        valid_utf8(b),
        l <= b.len(),
    ensures
        boundary_floor(b, l) <= l,
        is_char_boundary(b, boundary_floor(b, l) as int),
    decreases l,
{
    broadcast use vstd::utf8::is_char_boundary_start_end_of_seq;
    if l != 0 && !is_char_boundary(b, l as int) {
        lemma_boundary_floor(b, (l - 1) as nat);
    }
}

impl Profile {
    /// The profile code: the name, cut to at most fifteen bytes at a
    /// character boundary, behind its length, padded with zeros to sixteen
    /// bytes, in upper-case hex.
    pub fn to_code(&self) -> (code: String)
        ensures
            code@ == hex_upper(profile_code_bytes(self.name@)),
    {
        let text = self.name.as_str();
        let bytes = text.as_bytes();
        let ghost b = bytes@;
        proof {
            vstd::utf8::encode_utf8_valid_utf8(self.name@);
        }
        let mut len: usize = if bytes.len() < 15 { bytes.len() } else { 15 };
        let ghost start: nat = len as nat;
        while !text.is_char_boundary(len)
            invariant
                b == encode_utf8(self.name@),
                b == text.spec_bytes(),
                valid_utf8(b),
                len <= start,
                start <= b.len(),
                boundary_floor(b, len as nat) == boundary_floor(b, start),
            decreases len,
        {
            proof {
                vstd::utf8::is_char_boundary_start_end_of_seq(b);
            }
            len -= 1;
        }
        assert(len as nat == code_name_len(self.name@));
        let mut buf: Vec<u8> = Vec::new();
        buf.push(len as u8);
        let mut i: usize = 0;
        while i < len
            invariant
                0 <= i <= len,
                len <= b.len(),
                len <= 15,
                bytes@ == b,
                buf@ == seq![len as u8] + b.take(i as int),
            decreases len - i,
        {
            buf.push(bytes[i]);
            assert(b.take(i + 1) =~= b.take(i as int).push(b[i as int]));
            i += 1;
        }
        let ghost head = buf@;
        while buf.len() < 16
            invariant
                head.len() <= buf@.len() <= 16,
                buf@.subrange(0, head.len() as int) == head,
                forall|j: int| head.len() <= j < buf@.len() ==> buf@[j] == 0,
            decreases 16 - buf.len(),
        {
            buf.push(0u8);
        }
        assert(buf@ =~= profile_code_bytes(self.name@));
        hex_upper_encode(buf.as_slice())
    }

    /// Reads a profile code: a profile with the name it carries and every
    /// other setting at its default.
    pub fn from_code(code: &str) -> (r: Option<Profile>)
        requires
            code.spec_bytes().len() <= usize::MAX / 8,
        ensures
            match code_name(code.spec_bytes()) {
                None => r is None,
                Some(name) => r matches Some(p) && p.name@ == name && has_default_settings(p),
            },
    {
        let bytes = match hex_upper_decode(code.as_bytes()) {
            Some(b) => b,
            None => return None,
        };
        if bytes.len() != 16 {
            return None;
        }
        let len = bytes[0] as usize;
        if len > 15 {
            return None;
        }
        let mut name_bytes: Vec<u8> = Vec::new();
        let mut i: usize = 1;
        while i < 1 + len
            invariant
                1 <= i <= 1 + len,
                len <= 15,
                bytes@.len() == 16,
                name_bytes@ == bytes@.subrange(1, i as int),
            decreases 1 + len - i,
        {
            name_bytes.push(bytes[i]);
            assert(bytes@.subrange(1, i + 1) =~= bytes@.subrange(1, i as int).push(bytes@[i as int]));
            i += 1;
        }
        let name = match string_from_utf8(name_bytes) {
            Some(s) => s,
            None => return None,
        };
        let defaults = Profile::default();
        Some(Profile { name, ..defaults })
    }
}

proof fn lemma_hex_upper_ascii(b: Seq<u8>)
    ensures
        vstd::utf8::is_ascii_chars(hex_upper(b)),
        encode_utf8(hex_upper(b)).len() == 2 * b.len(),
        forall|i: int| 0 <= i < 2 * b.len() ==> #[trigger] encode_utf8(hex_upper(b))[i] == hex_upper(b)[i] as u8,
{
    let h = hex_upper(b);
    assert forall|i: int| 0 <= i < h.len() implies '\0' <= #[trigger] h[i] <= '\u{7f}' by {
        let v: int = if i % 2 == 0 { (b[i / 2] / 16) as int } else { (b[i / 2] % 16) as int };
        assert(0 <= v < 16);
        assert(h[i] == upper_hex_char(v));
    }
    vstd::utf8::is_ascii_chars_encode_utf8(h);
}

proof fn lemma_hex_upper_decodes(b: Seq<u8>)
    ensures
        hex_upper_bytes(encode_utf8(hex_upper(b))) == Some(b),
{
    lemma_hex_upper_ascii(b);
    let h = hex_upper(b);
    let e = encode_utf8(h);
    assert forall|i: int| 0 <= i < e.len() implies #[trigger] upper_hex_value(e[i]) == Some(
        (if i % 2 == 0 { b[i / 2] / 16 } else { b[i / 2] % 16 }) as u8,
    ) by {
        let v: int = if i % 2 == 0 { (b[i / 2] / 16) as int } else { (b[i / 2] % 16) as int };
        assert(h[i] == upper_hex_char(v));
        assert(e[i] == h[i] as u8);
    }
    assert(!(exists|i: int| 0 <= i < e.len() && #[trigger] upper_hex_value(e[i]) is None));
    let d = Seq::new(
        e.len() / 2,
        |i: int| (upper_hex_value(e[2 * i])->0 * 16 + upper_hex_value(e[2 * i + 1])->0) as u8,
    );
    assert forall|i: int| 0 <= i < b.len() implies d[i] == b[i] by {
        assert(upper_hex_value(e[2 * i]) == Some((b[i] / 16) as u8));
        assert(upper_hex_value(e[2 * i + 1]) == Some((b[i] % 16) as u8));
    }
    assert(d =~= b);
}

/// Reading back a profile code gives the name cut at the last character
/// boundary within its first fifteen bytes, whose UTF-8 bytes are exactly
/// the kept prefix of the name's.
pub proof fn lemma_profile_code_round_trip(name: Seq<char>)
    ensures
        code_name(encode_utf8(hex_upper(profile_code_bytes(name)))) == Some(
            decode_utf8(encode_utf8(name).take(code_name_len(name) as int)),
        ),
        encode_utf8(decode_utf8(encode_utf8(name).take(code_name_len(name) as int)))
            == encode_utf8(name).take(code_name_len(name) as int),
{
    let b = encode_utf8(name);
    let n = code_name_len(name);
    vstd::utf8::encode_utf8_valid_utf8(name);
    lemma_boundary_floor(b, if b.len() < 15 { b.len() } else { 15 });
    vstd::utf8::valid_utf8_split(b, n as int);
    assert(b.subrange(0, n as int) =~= b.take(n as int));
    let code = profile_code_bytes(name);
    lemma_hex_upper_decodes(code);
    assert(code.len() == 16);
    assert(code[0] == n as u8);
    assert(code.subrange(1, 1 + code[0] as int) =~= b.take(n as int));
    vstd::utf8::decode_utf8_encode_utf8(b.take(n as int));
}

} // verus!
