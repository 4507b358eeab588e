//! Human-shareable codes: the `BIRD-` hex form of an endpoint, and typed
//! flock and roost codes in unpadded base32; gossip topics from names.

use vstd::prelude::*;
use vstd::string::StringSliceAdditionalSpecFns;
use vstd::utf8::encode_utf8;
use crate::descriptor::TopicId;
use crate::keys::{sha256, spec_sha256, EndpointId};
use crate::wire::{ascii_chars, ascii_text, push_raw};

verus! {

/// The unpadded RFC 4648 base32 text of some bytes.
pub uninterp spec fn spec_base32_encode(bytes: Seq<u8>) -> Seq<char>;

/// The bytes an unpadded base32 text stands for; `None` for text that is
/// not valid unpadded base32.
pub uninterp spec fn spec_base32_decode(text: Seq<u8>) -> Option<Seq<u8>>;

/// Whether 32 bytes are a valid compressed Ed25519 point.
pub uninterp spec fn spec_valid_public_key(bytes: Seq<u8>) -> bool;

#[derive(Clone, Copy, Debug, PartialEq, Eq, Structural)]
pub enum CodeType {
    Flock,
    Roost,
}

#[derive(Clone, Debug, PartialEq, Eq)]
pub struct TypedCode {
    pub code_type: CodeType,
    pub payload: Vec<u8>,
}

/// A character of the base32 alphabet: `A` to `Z`, `2` to `7`.
pub open spec fn is_base32_char(c: char) -> bool {
    ('A' <= c && c <= 'Z') || ('2' <= c && c <= '7')
}

/// Unpadded base32: wraps `data_encoding::BASE32_NOPAD.encode`, whose text
/// is drawn from the alphabet `A-Z2-7` and decodes back to the bytes (and
/// which may panic above its length bound).
#[verifier::external_body]
fn base32_encode(bytes: &[u8]) -> (s: String)
    requires
        bytes@.len() <= usize::MAX / 512,
    ensures
        s@ == spec_base32_encode(bytes@),
        forall|i: int| 0 <= i < s@.len() ==> is_base32_char(#[trigger] s@[i]),
        spec_base32_decode(encode_utf8(s@)) == Some(bytes@),
        s@.len() > 0 <==> bytes@.len() > 0,
{
    data_encoding::BASE32_NOPAD.encode(bytes)
}

/// Unpadded base32 decoding: wraps `data_encoding::BASE32_NOPAD.decode`
/// (which may panic above its length bound).
#[verifier::external_body]
fn base32_decode(text: &[u8]) -> (r: Option<Vec<u8>>)
    requires
        text@.len() <= usize::MAX / 8,
    ensures
        match r {
            Some(b) => spec_base32_decode(text@) == Some(b@),
            None => spec_base32_decode(text@) is None,
        },
{
    data_encoding::BASE32_NOPAD.decode(text).ok()
}

/// An endpoint from its 32 bytes, when they are a valid key: wraps
/// `iroh::PublicKey::from_bytes`.
#[verifier::external_body]
pub fn endpoint_from_bytes(bytes: &[u8; 32]) -> (r: Option<EndpointId>)
    ensures
        r is Some <==> spec_valid_public_key(bytes@),
        r matches Some(e) ==> e.0 == *bytes,
{
    match iroh::PublicKey::from_bytes(bytes) {
        Ok(key) => Some(EndpointId(*key.as_bytes())),
        Err(_) => None,
    }
}

/// A character with the Unicode `White_Space` property.
pub open spec fn is_white_space(c: char) -> bool {
    ||| ('\u{9}' <= c && c <= '\u{d}')
    ||| c == ' '
    ||| c == '\u{85}'
    ||| c == '\u{a0}'
    ||| c == '\u{1680}'
    ||| ('\u{2000}' <= c && c <= '\u{200a}')
    ||| c == '\u{2028}'
    ||| c == '\u{2029}'
    ||| c == '\u{202f}'
    ||| c == '\u{205f}'
    ||| c == '\u{3000}'
}

/// A text without its leading white space.
pub open spec fn trim_start(s: Seq<char>) -> Seq<char>
    decreases s.len(),
{
    if s.len() > 0 && is_white_space(s[0]) {
        trim_start(s.drop_first())
    } else {
        s
    }
}

/// A text without its trailing white space.
pub open spec fn trim_end(s: Seq<char>) -> Seq<char>
    decreases s.len(),
{
    if s.len() > 0 && is_white_space(s.last()) {
        trim_end(s.drop_last())
    } else {
        s
    }
}

/// A text without its leading and trailing white space.
pub open spec fn trimmed(s: Seq<char>) -> Seq<char> {
    trim_end(trim_start(s))
}

/// The text with leading and trailing white space removed: wraps
/// `str::trim`, which returns the slice of the text between its leading
/// and trailing characters of the Unicode `White_Space` property.
#[verifier::external_body]
fn trim(text: &str) -> (r: &str)
    ensures
        r@ == trimmed(text@),
        r.spec_bytes().len() <= text.spec_bytes().len(),
{
    text.trim()
}

/// A character with an ASCII lower-case letter put in upper case.
pub open spec fn ascii_upper(c: char) -> char {
    if 'a' <= c && c <= 'z' {
        ((c as u32) - 32) as char
    } else {
        c
    }
}

/// A character with an ASCII upper-case letter put in lower case.
pub open spec fn ascii_lower(c: char) -> char {
    if 'A' <= c && c <= 'Z' {
        ((c as u32) + 32) as char
    } else {
        c
    }
}

/// A typed code reads the same in lower case: for a text of base32
/// characters, the lower-cased text stands for what the text stands for.
pub proof fn lemma_typed_code_case_folds(s: Seq<char>)
    requires
        forall|i: int| 0 <= i < s.len() ==> is_base32_char(#[trigger] s[i]),
    ensures
        typed_code_text(s.map_values(|c: char| ascii_lower(c))) == typed_code_text(s),
{
    let l = s.map_values(|c: char| ascii_lower(c));
    if s.len() > 0 {
        assert(is_base32_char(s[0]) && is_base32_char(s.last()));
        assert(l[0] == ascii_lower(s[0]) && l.last() == ascii_lower(s.last()));
    }
    assert(trim_start(s) == s);
    assert(trim_end(s) == s);
    assert(trim_start(l) == l);
    assert(trim_end(l) == l);
    let ul = l.map_values(|c: char| ascii_upper(c));
    let us = s.map_values(|c: char| ascii_upper(c));
    assert forall|i: int| 0 <= i < s.len() implies #[trigger] ul[i] == us[i] by {
        assert(is_base32_char(s[i]));
        assert(l[i] == ascii_lower(s[i]));
    }
    assert(ul =~= us);
}

/// The text with ASCII letters in upper case: wraps
/// `str::to_ascii_uppercase`, which maps `a-z` to `A-Z` and keeps every
/// other character.
#[verifier::external_body]
fn ascii_uppercase(text: &str) -> (s: String)
    ensures
        s@ == text@.map_values(|c: char| ascii_upper(c)),
        encode_utf8(s@).len() == text.spec_bytes().len(),
{
    text.to_ascii_uppercase()
}

/// The gossip topic of a name: its SHA-256 digest.
pub fn topic_for(name: &str) -> (t: TopicId)
    ensures
        t.0@ == spec_sha256(name.spec_bytes()),
{
    TopicId::from_bytes(sha256(name.as_bytes()))
}

pub open spec fn hex_digit(n: u8) -> u8 {
    if n < 10 { (48 + n) as u8 } else { (55 + n) as u8 }
}

/// Two upper-case hex digits of a byte.
pub open spec fn hex_pair(b: u8) -> Seq<u8> {
    seq![hex_digit(b / 16), hex_digit(b % 16)]
}

/// The 33 bytes of an endpoint padded with a zero, as eleven groups of six
/// upper-case hex digits after `BIRD`, each group led by a hyphen.
pub open spec fn bird_code(id: EndpointId) -> Seq<u8> {
    bird_prefix() + bird_groups(id.0@.push(0u8), 11)
}

/// The letters `BIRD`.
pub open spec fn bird_prefix() -> Seq<u8> {
    seq![66u8, 73u8, 82u8, 68u8]
}

pub open spec fn bird_groups(b: Seq<u8>, n: nat) -> Seq<u8>
    decreases n,
{
    if n == 0 {
        Seq::empty()
    } else {
        bird_groups(b, (n - 1) as nat) + seq![45u8] + hex_pair(b[3 * (n - 1)]) + hex_pair(b[3 * (n - 1) + 1])
            + hex_pair(b[3 * (n - 1) + 2])
    }
}

fn push_hex_pair(out: &mut Vec<u8>, b: u8)
    ensures
        final(out)@ == old(out)@ + hex_pair(b),
{
    let hi = b / 16;
    let lo = b % 16;
    out.push(if hi < 10 { 48 + hi } else { 55 + hi });
    out.push(if lo < 10 { 48 + lo } else { 55 + lo });
    assert(final(out)@ =~= old(out)@ + hex_pair(b));
}

/// The `BIRD-` code of an endpoint.
pub fn encode_node_id(node_id: &EndpointId) -> (s: String)
    ensures
        s@ == ascii_chars(bird_code(*node_id)),
{
    let mut padded: Vec<u8> = Vec::new();
    push_raw(&mut padded, &node_id.0);
    padded.push(0u8);
    let ghost p = padded@;
    assert(p =~= node_id.0@.push(0u8));
    let mut out: Vec<u8> = Vec::new();
    out.push(66u8);
    out.push(73u8);
    out.push(82u8);
    out.push(68u8);
    let ghost prefix = out@;
    assert(prefix =~= bird_prefix());
    let mut g: usize = 0;
    while g < 11
        invariant
            0 <= g <= 11,
            padded@ == p,
            p.len() == 33,
            out@ == prefix + bird_groups(p, g as nat),
        decreases 11 - g,
    {
        out.push(45u8);
        push_hex_pair(&mut out, padded[3 * g]);
        push_hex_pair(&mut out, padded[3 * g + 1]);
        push_hex_pair(&mut out, padded[3 * g + 2]);
        assert(out@ =~= prefix + bird_groups(p, (g + 1) as nat));
        g += 1;
    }
    proof {
        assert(out@ == bird_code(*node_id));
        assert forall|i: int| 0 <= i < out@.len() implies out@[i] < 128 by {
            lemma_bird_code_ascii(*node_id, i);
        }
    }
    ascii_text(out)
}

proof fn lemma_bird_groups_ascii(b: Seq<u8>, n: nat, i: int)
    requires
        0 <= i < bird_groups(b, n).len(),
    ensures
        bird_groups(b, n)[i] < 128,
    decreases n,
{
    if n > 0 {
        let prev = bird_groups(b, (n - 1) as nat);
        if i < prev.len() {
            lemma_bird_groups_ascii(b, (n - 1) as nat, i);
        }
    }
}

proof fn lemma_bird_code_ascii(id: EndpointId, i: int)
    requires
        0 <= i < bird_code(id).len(),
    ensures
        bird_code(id)[i] < 128,
{
    let pre = bird_prefix();
    if i >= pre.len() {
        lemma_bird_groups_ascii(id.0@.push(0u8), 11, i - pre.len());
    }
}

/// The same as [`encode_node_id`].
pub fn room_code_from_node_id(node_id: &EndpointId) -> (s: String)
    ensures
        s@ == ascii_chars(bird_code(*node_id)),
{
    encode_node_id(node_id)
}

pub open spec fn code_tag(t: CodeType) -> u8 {
    match t {
        CodeType::Flock => 0,
        CodeType::Roost => 1,
    }
}

/// A typed code: the base32 text of a tag byte and the payload. It holds
/// no hyphen, and reading it back gives the type and a non-empty payload.
pub fn encode_typed_code(code_type: CodeType, payload: &[u8]) -> (s: String)
    requires
        payload@.len() < usize::MAX / 512,
    ensures
        s@ == spec_base32_encode(seq![code_tag(code_type)] + payload@),
        !s@.contains('-'),
        payload@.len() > 0 ==> typed_code_text(s@) == Some((code_type, payload@)),
        forall|i: int| 0 <= i < s@.len() ==> is_base32_char(#[trigger] s@[i]),
{
    let mut bytes: Vec<u8> = Vec::new();
    bytes.push(match code_type {
        CodeType::Flock => 0u8,
        CodeType::Roost => 1u8,
    });
    push_raw(&mut bytes, payload);
    assert(bytes@ =~= seq![code_tag(code_type)] + payload@);
    let s = base32_encode(bytes.as_slice());
    proof {
        lemma_base32_text_reads_back(s@, code_type, payload@);
    }
    s
}

proof fn lemma_base32_text_reads_back(s: Seq<char>, t: CodeType, p: Seq<u8>)
    requires
        forall|i: int| 0 <= i < s.len() ==> is_base32_char(#[trigger] s[i]),
        spec_base32_decode(encode_utf8(s)) == Some(seq![code_tag(t)] + p),
        s.len() > 0,
    ensures
        !s.contains('-'),
        p.len() > 0 ==> typed_code_text(s) == Some((t, p)),
{
    if s.contains('-') {
        let i = choose|i: int| 0 <= i < s.len() && s[i] == '-';
        assert(is_base32_char(s[i]));
    }
    if s.len() > 0 {
        assert(is_base32_char(s[0]));
        assert(is_base32_char(s.last()));
    }
    let u = s.map_values(|c: char| ascii_upper(c));
    assert forall|i: int| 0 <= i < s.len() implies #[trigger] u[i] == s[i] by {
        assert(is_base32_char(s[i]));
    }
    assert(u =~= s);
    assert(trimmed(s) == s);
    assert forall|i: int| 0 <= i < s.len() implies '\0' <= #[trigger] s[i] <= '\u{7f}' by {
        assert(is_base32_char(s[i]));
    }
    vstd::utf8::is_ascii_chars_encode_utf8(s);
    let e = encode_utf8(s);
    if e.contains(45u8) {
        let i = choose|i: int| 0 <= i < e.len() && e[i] == 45u8;
        assert(e[i] == s[i] as u8);
        assert(is_base32_char(s[i]));
    }
    let b = seq![code_tag(t)] + p;
    if p.len() > 0 {
        assert(b[0] == code_tag(t));
        assert(b.drop_first() =~= p);
        assert(trimmed(s).map_values(|c: char| ascii_upper(c)) == s);
    }
}

/// What a normalized typed code stands for: its base32 bytes, a known tag
/// and a non-empty payload.
pub open spec fn typed_code_of(text: Seq<u8>) -> Option<(CodeType, Seq<u8>)> {
    if text.len() == 0 || text.contains(45u8) {
        None
    } else {
        match spec_base32_decode(text) {
            None => None,
            Some(b) => if b.len() < 2 {
                None
            } else if b[0] == 0 {
                Some((CodeType::Flock, b.drop_first()))
            } else if b[0] == 1 {
                Some((CodeType::Roost, b.drop_first()))
            } else {
                None
            },
        }
    }
}

/// Reads a typed code already trimmed and in upper case.
pub fn decode_normalized_code(text: &[u8]) -> (r: Option<TypedCode>)
    requires
        text@.len() <= usize::MAX / 8,
    ensures
        match typed_code_of(text@) {
            None => r is None,
            Some((t, p)) => r matches Some(c) && c.code_type == t && c.payload@ == p,
        },
{
    if text.len() == 0 {
        return None;
    }
    let mut i: usize = 0;
    while i < text.len()
        invariant
            0 <= i <= text@.len(),
            forall|j: int| 0 <= j < i ==> text@[j] != 45u8,
        decreases text.len() - i,
    {
        if text[i] == 45u8 {
            assert(text@.contains(45u8));
            return None;
        }
        i += 1;
    }
    let bytes = match base32_decode(text) {
        None => return None,
        Some(b) => b,
    };
    if bytes.len() < 2 {
        return None;
    }
    let code_type = if bytes[0] == 0 {
        CodeType::Flock
    } else if bytes[0] == 1 {
        CodeType::Roost
    } else {
        return None;
    };
    let mut payload: Vec<u8> = Vec::new();
    let mut k: usize = 1;
    while k < bytes.len()
        invariant
            1 <= k <= bytes@.len(),
            payload@ == bytes@.subrange(1, k as int),
        decreases bytes.len() - k,
    {
        payload.push(bytes[k]);
        assert(bytes@.subrange(1, k + 1) =~= bytes@.subrange(1, k as int).push(bytes@[k as int]));
        k += 1;
    }
    assert(payload@ =~= bytes@.drop_first());
    Some(TypedCode { code_type, payload })
}

/// What a typed code stands for once trimmed and put in upper case.
pub open spec fn typed_code_text(code: Seq<char>) -> Option<(CodeType, Seq<u8>)> {
    typed_code_of(encode_utf8(trimmed(code).map_values(|c: char| ascii_upper(c))))
}

/// Reads a typed code: trims it, puts it in upper case, then reads it as
/// [`decode_normalized_code`] does.
pub fn decode_typed_code(code: &str) -> (r: Option<TypedCode>)
    requires
        code.spec_bytes().len() <= usize::MAX / 8,
    ensures
        match typed_code_text(code@) {
            None => r is None,
            Some((t, p)) => r matches Some(c) && c.code_type == t && c.payload@ == p,
        },
{
    let trimmed = trim(code);
    let normalized = ascii_uppercase(trimmed);
    decode_normalized_code(normalized.as_str().as_bytes())
}

/// A flock code for a payload; reading it back with [`decode_typed_code`]
/// gives the flock type and the payload, when the payload is not empty.
pub fn encode_flock_code(payload: &[u8]) -> (s: String)
    requires
        payload@.len() < usize::MAX / 512,
    ensures
        s@ == spec_base32_encode(seq![0u8] + payload@),
        !s@.contains('-'),
        payload@.len() > 0 ==> typed_code_text(s@) == Some((CodeType::Flock, payload@)),
        payload@.len() > 0 ==> typed_code_text(s@.map_values(|c: char| ascii_lower(c))) == Some((CodeType::Flock, payload@)),
{
    let s = encode_typed_code(CodeType::Flock, payload);
    proof {
        lemma_typed_code_case_folds(s@);
    }
    s
}

/// A roost code for an endpoint; reading it back gives the roost type and
/// the endpoint's bytes.
pub fn encode_roost_code(node_id: &EndpointId) -> (s: String)
    ensures
        s@ == spec_base32_encode(seq![1u8] + node_id.0@),
        typed_code_text(s@) == Some((CodeType::Roost, node_id.0@)),
        typed_code_text(s@.map_values(|c: char| ascii_lower(c))) == Some((CodeType::Roost, node_id.0@)),
{
    let s = encode_typed_code(CodeType::Roost, &node_id.0);
    proof {
        lemma_typed_code_case_folds(s@);
    }
    s
}

/// The endpoint a code's payload names, when it is 32 bytes of a valid key.
pub fn typed_code_node_id(code: &TypedCode) -> (r: Option<EndpointId>)
    ensures
        code.payload@.len() != 32 ==> r is None,
        code.payload@.len() == 32 ==> (r is Some <==> spec_valid_public_key(code.payload@)),
        r matches Some(e) ==> e.0@ == code.payload@,
{
    if code.payload.len() != 32 {
        return None;
    }
    let mut bytes: [u8; 32] = [0u8; 32];
    let mut i: usize = 0;
    while i < 32
        invariant
            0 <= i <= 32,
            code.payload@.len() == 32,
            bytes@.len() == 32,
            forall|j: int| 0 <= j < i ==> bytes@[j] == code.payload@[j],
        decreases 32 - i,
    {
        bytes.set(i, code.payload[i]);
        i += 1;
    }
    assert(bytes@ =~= code.payload@);
    endpoint_from_bytes(&bytes)
}

pub open spec fn hex_value(c: u8) -> Option<u8> {
    if 48 <= c <= 57 {
        Some((c - 48) as u8)
    } else if 65 <= c <= 70 {
        Some((c - 55) as u8)
    } else if 97 <= c <= 102 {
        Some((c - 87) as u8)
    } else {
        None
    }
}

/// A byte from two characters as `u8::from_str_radix(_, 16)` reads them:
/// two hex digits, or a plus sign and one.
pub open spec fn hex_byte(a: u8, b: u8) -> Option<u8> {
    match (hex_value(a), hex_value(b)) {
        (Some(x), Some(y)) => Some((x * 16 + y) as u8),
        (None, Some(y)) => if a == 43 { Some(y) } else { None },
        _ => None,
    }
}

fn hex_value_of(c: u8) -> (r: Option<u8>)
    ensures
        r == hex_value(c),
{
    if 48 <= c && c <= 57 {
        Some(c - 48)
    } else if 65 <= c && c <= 70 {
        Some(c - 55)
    } else if 97 <= c && c <= 102 {
        Some(c - 87)
    } else {
        None
    }
}

fn hex_byte_of(a: u8, b: u8) -> (r: Option<u8>)
    ensures
        r == hex_byte(a, b),
{
    match (hex_value_of(a), hex_value_of(b)) {
        (Some(x), Some(y)) => Some(x * 16 + y),
        (None, Some(y)) => if a == 43 { Some(y) } else { None },
        _ => None,
    }
}

/// The bytes a `BIRD-` code's groups stand for, reading six characters at
/// a time after each hyphen; `None` when a group is malformed.
pub open spec fn bird_bytes(s: Seq<u8>, n: nat) -> Option<Seq<u8>>
    decreases n,
{
    if n == 0 {
        Some(Seq::empty())
    } else {
        match bird_bytes(s, (n - 1) as nat) {
            None => None,
            Some(prev) => {
                let at = 5 + 7 * (n - 1);
                if s[at - 1] != 45 {
                    None
                } else {
                    match (hex_byte(s[at], s[at + 1]), hex_byte(s[at + 2], s[at + 3]), hex_byte(s[at + 4], s[at + 5])) {
                        (Some(r), Some(g), Some(b)) => Some(prev + seq![r, g, b]),
                        _ => None,
                    }
                }
            },
        }
    }
}

/// What a `BIRD-` code stands for: `BIRD`, eleven hyphen-led groups of six
/// characters of hex byte pairs, the thirty-third byte zero, and a valid
/// key in the first thirty-two.
pub open spec fn node_id_of(s: Seq<u8>) -> Option<Seq<u8>> {
    if s.len() != 4 + 77 || s.take(4) != bird_prefix() {
        None
    } else {
        match bird_bytes(s, 11) {
            None => None,
            Some(b) => if b[32] != 0 || !spec_valid_public_key(b.take(32)) {
                None
            } else {
                Some(b.take(32))
            },
        }
    }
}

/// Reads a `BIRD-` code.
pub fn decode_node_id(code: &str) -> (r: Option<EndpointId>)
    ensures
        match node_id_of(code.spec_bytes()) {
            None => r is None,
            Some(b) => r matches Some(e) && e.0@ == b,
        },
{
    let s = code.as_bytes();
    if s.len() != 81 || !(s[0] == 66 && s[1] == 73 && s[2] == 82 && s[3] == 68) {
        proof {
            if s@.len() == 81 && s@.take(4) == bird_prefix() {
                assert(s@.take(4)[0] == 66 && s@.take(4)[1] == 73 && s@.take(4)[2] == 82 && s@.take(4)[3] == 68);
            }
        }
        return None;
    }
    assert(s@.take(4) =~= bird_prefix());
    let mut bytes: Vec<u8> = Vec::new();
    let mut g: usize = 0;
    while g < 11
        invariant
            0 <= g <= 11,
            s@.len() == 81,
            s@ == code.spec_bytes(),
            s@.take(4) == bird_prefix(),
            bird_bytes(s@, g as nat) == Some(bytes@),
        decreases 11 - g,
    {
        let at = 5 + 7 * g;
        if s[at - 1] != 45 {
            proof {
                let gn: nat = (g + 1) as nat;
                assert(5 + 7 * (gn - 1) == at);
                assert(s@[at - 1] != 45);
                assert(bird_bytes(s@, gn) is None);
                lemma_bird_bytes_prefix_none(s@, gn, 11);
            }
            return None;
        }
        let r = hex_byte_of(s[at], s[at + 1]);
        let gr = hex_byte_of(s[at + 2], s[at + 3]);
        let b = hex_byte_of(s[at + 4], s[at + 5]);
        match (r, gr, b) {
            (Some(x), Some(y), Some(z)) => {
                bytes.push(x);
                bytes.push(y);
                bytes.push(z);
                assert(bytes@ =~= bird_bytes(s@, g as nat)->Some_0 + seq![x, y, z]);
            },
            _ => {
                proof {
                    let gn: nat = (g + 1) as nat;
                    assert(5 + 7 * (gn - 1) == at);
                    assert(s@[at - 1] == 45);
                    assert(bird_bytes(s@, gn) is None);
                    lemma_bird_bytes_prefix_none(s@, gn, 11);
                }
                return None;
            },
        }
        g += 1;
    }
    proof {
        lemma_bird_bytes_len(s@, 11);
    }
    if bytes[32] != 0 {
        return None;
    }
    let mut arr: [u8; 32] = [0u8; 32];
    let mut i: usize = 0;
    while i < 32
        invariant
            0 <= i <= 32,
            bytes@.len() == 33,
            arr@.len() == 32,
            forall|j: int| 0 <= j < i ==> arr@[j] == bytes@[j],
        decreases 32 - i,
    {
        arr.set(i, bytes[i]);
        i += 1;
    }
    assert(arr@ =~= bytes@.take(32));
    endpoint_from_bytes(&arr)
}

proof fn lemma_bird_groups_len(b: Seq<u8>, m: nat)
    ensures
        bird_groups(b, m).len() == 7 * m,
    decreases m,
{
    if m > 0 {
        lemma_bird_groups_len(b, (m - 1) as nat);
    }
}

proof fn lemma_bird_groups_prefix(b: Seq<u8>, g: nat, m: nat)
    requires
        g <= m,
    ensures
        bird_groups(b, m).take(7 * g as int) == bird_groups(b, g),
    decreases m,
{
    lemma_bird_groups_len(b, m);
    lemma_bird_groups_len(b, g);
    if g == m {
        assert(bird_groups(b, m).take(7 * g as int) =~= bird_groups(b, m));
    } else {
        let pm = (m - 1) as nat;
        lemma_bird_groups_prefix(b, g, pm);
        lemma_bird_groups_len(b, pm);
        assert(bird_groups(b, m).take(7 * g as int) =~= bird_groups(b, pm).take(7 * g as int));
    }
}

/// The group of six hex digits, led by a hyphen, that spells bytes
/// `3k .. 3k + 3`.
pub open spec fn bird_group(b: Seq<u8>, k: int) -> Seq<u8> {
    seq![45u8] + hex_pair(b[3 * k]) + hex_pair(b[3 * k + 1]) + hex_pair(b[3 * k + 2])
}

proof fn lemma_bird_code_group(id: EndpointId, k: nat, j: int)
    requires
        k < 11,
        0 <= j < 7,
    ensures
        bird_code(id)[4 + 7 * k + j] == bird_group(id.0@.push(0u8), k as int)[j],
{
    let b = id.0@.push(0u8);
    let groups = bird_groups(b, 11);
    lemma_bird_groups_len(b, 11);
    lemma_bird_groups_len(b, k);
    lemma_bird_groups_prefix(b, k + 1, 11);
    assert(bird_groups(b, k + 1) == bird_groups(b, k) + bird_group(b, k as int));
    assert(bird_code(id)[4 + 7 * k + j] == groups[7 * k + j]);
    assert(groups[7 * k + j] == groups.take((7 * (k + 1)) as int)[7 * k + j]);
}

proof fn lemma_hex_pair_reads_back(x: u8)
    ensures
        hex_byte(hex_pair(x)[0], hex_pair(x)[1]) == Some(x),
{
    let hi = x / 16;
    let lo = x % 16;
    assert(hex_value(hex_digit(hi)) == Some(hi));
    assert(hex_value(hex_digit(lo)) == Some(lo));
}

proof fn lemma_bird_group_reads_back(b: Seq<u8>, k: int)
    requires
        0 <= k,
        3 * k + 2 < b.len(),
    ensures
        bird_group(b, k)[0] == 45u8,
        hex_byte(bird_group(b, k)[1], bird_group(b, k)[2]) == Some(b[3 * k]),
        hex_byte(bird_group(b, k)[3], bird_group(b, k)[4]) == Some(b[3 * k + 1]),
        hex_byte(bird_group(b, k)[5], bird_group(b, k)[6]) == Some(b[3 * k + 2]),
{
    let grp = bird_group(b, k);
    lemma_hex_pair_reads_back(b[3 * k]);
    lemma_hex_pair_reads_back(b[3 * k + 1]);
    lemma_hex_pair_reads_back(b[3 * k + 2]);
    assert(grp[1] == hex_pair(b[3 * k])[0] && grp[2] == hex_pair(b[3 * k])[1]);
    assert(grp[3] == hex_pair(b[3 * k + 1])[0] && grp[4] == hex_pair(b[3 * k + 1])[1]);
    assert(grp[5] == hex_pair(b[3 * k + 2])[0] && grp[6] == hex_pair(b[3 * k + 2])[1]);
}

proof fn lemma_bird_bytes_step(s: Seq<u8>, g: nat, prev: Seq<u8>, x: u8, y: u8, z: u8)
    requires
        g > 0,
        bird_bytes(s, (g - 1) as nat) == Some(prev),
        s[5 + 7 * (g - 1) - 1] == 45u8,
        hex_byte(s[5 + 7 * (g - 1)], s[5 + 7 * (g - 1) + 1]) == Some(x),
        hex_byte(s[5 + 7 * (g - 1) + 2], s[5 + 7 * (g - 1) + 3]) == Some(y),
        hex_byte(s[5 + 7 * (g - 1) + 4], s[5 + 7 * (g - 1) + 5]) == Some(z),
    ensures
        bird_bytes(s, g) == Some(prev + seq![x, y, z]),
{
}

proof fn lemma_bird_bytes_of_code(id: EndpointId, g: nat)
    requires
        g <= 11,
    ensures
        bird_bytes(bird_code(id), g) == Some(id.0@.push(0u8).take(3 * g as int)),
    decreases g,
{
    let b = id.0@.push(0u8);
    let s = bird_code(id);
    if g == 0 {
        assert(b.take(0) =~= Seq::<u8>::empty());
    } else {
        let kn = (g - 1) as nat;
        let k: int = kn as int;
        lemma_bird_bytes_of_code(id, kn);
        let grp = bird_group(b, k);
        lemma_bird_group_reads_back(b, k);
        lemma_bird_code_group(id, kn, 0);
        lemma_bird_code_group(id, kn, 1);
        lemma_bird_code_group(id, kn, 2);
        lemma_bird_code_group(id, kn, 3);
        lemma_bird_code_group(id, kn, 4);
        lemma_bird_code_group(id, kn, 5);
        lemma_bird_code_group(id, kn, 6);
        lemma_bird_bytes_step(s, g, b.take(3 * k), b[3 * k], b[3 * k + 1], b[3 * k + 2]);
        assert(b.take(3 * g as int) =~= b.take(3 * k) + seq![b[3 * k], b[3 * k + 1], b[3 * k + 2]]);
    }
}

/// Reading back the `BIRD-` code of an endpoint with a valid key gives
/// the endpoint's bytes.
pub proof fn lemma_bird_code_round_trip(id: EndpointId)
    requires
        spec_valid_public_key(id.0@),
    ensures
        node_id_of(encode_utf8(ascii_chars(bird_code(id)))) == Some(id.0@),
{
    let s = bird_code(id);
    let chars = ascii_chars(s);
    assert forall|i: int| 0 <= i < s.len() implies s[i] < 128 by {
        lemma_bird_code_ascii(id, i);
    }
    assert forall|i: int| 0 <= i < chars.len() implies '\0' <= #[trigger] chars[i] <= '\u{7f}' by {
        lemma_bird_code_ascii(id, i);
    }
    vstd::utf8::is_ascii_chars_encode_utf8(chars);
    assert(encode_utf8(chars) =~= s);
    lemma_bird_groups_len(id.0@.push(0u8), 11);
    assert(s.take(4) =~= bird_prefix());
    lemma_bird_bytes_of_code(id, 11);
    let b = id.0@.push(0u8);
    assert(b.take(33) =~= b);
    assert(b.take(32) =~= id.0@);
}

proof fn lemma_bird_bytes_len(s: Seq<u8>, n: nat)
    ensures
        bird_bytes(s, n) matches Some(b) ==> b.len() == 3 * n,
    decreases n,
{
    if n > 0 {
        lemma_bird_bytes_len(s, (n - 1) as nat);
    }
}

proof fn lemma_bird_bytes_prefix_none(s: Seq<u8>, k: nat, n: nat)
    requires
        k <= n,
        bird_bytes(s, k) is None,
    ensures
        bird_bytes(s, n) is None,
    decreases n - k,
{
    if k < n {
        lemma_bird_bytes_prefix_none(s, k + 1, n);
    }
}

} // verus!
