//! Checking a downloaded release against its published SHA-256 checksum.

use vstd::prelude::*;
use vstd::string::StringExecFns;
use crate::keys::{sha256, spec_sha256};
use crate::net::{is_white_space, trim_start};
use crate::wire::{ascii_chars, ascii_text, text_eq};

verus! {

/// The lower-case hex digit of a value below sixteen.
pub open spec fn lower_hex_char(v: int) -> char {
    if v < 10 { (48 + v) as char } else { (87 + v) as char }
}

/// Lower-case hex text of some bytes, two digits a byte, high half first.
pub open spec fn hex_lower(b: Seq<u8>) -> Seq<char> {
    Seq::new(
        2 * b.len(),
        |i: int| if i % 2 == 0 { lower_hex_char((b[i / 2] / 16) as int) } else { lower_hex_char((b[i / 2] % 16) as int) },
    )
}

/// The characters of a text up to its first white space.
pub open spec fn leading_token(s: Seq<char>) -> Seq<char>
    decreases s.len(),
{
    if s.len() == 0 || is_white_space(s[0]) {
        Seq::empty()
    } else {
        seq![s[0]] + leading_token(s.drop_first())
    }
}

/// The first word of a text, words being separated by white space; empty
/// when the text holds none.
pub open spec fn first_word(s: Seq<char>) -> Seq<char> {
    leading_token(trim_start(s))
}

/// The first word of a text: wraps `str::split_whitespace` and the first
/// `next` of what it returns, which splits on characters of the Unicode
/// `White_Space` property and yields no empty word.
#[verifier::external_body]
fn first_whitespace_word(text: &str) -> (r: Option<&str>)
    ensures
        match r {
            Some(w) => w@ == first_word(text@) && w@.len() > 0,
            None => first_word(text@).len() == 0,
        },
{
    text.split_whitespace().next()
}

fn lower_digit(v: u8) -> (c: u8)
    requires
        v < 16,
    ensures
        c < 128,
        c as char == lower_hex_char(v as int),
{
    if v < 10 { 48 + v } else { 87 + v }
}

/// The lower-case hex text of some bytes.
pub fn hex_lower_text(b: &[u8]) -> (s: String)
    ensures
        s@ == hex_lower(b@),
{
    let mut out: Vec<u8> = Vec::new();
    let mut i: usize = 0;
    while i < b.len()
        invariant
            0 <= i <= b@.len(),
            out@.len() == 2 * i,
            forall|j: int| 0 <= j < out@.len() ==> out@[j] < 128,
            ascii_chars(out@) == hex_lower(b@.take(i as int)),
        decreases b.len() - i,
    {
        let ghost before = out@;
        out.push(lower_digit(b[i] / 16));
        out.push(lower_digit(b[i] % 16));
        assert(ascii_chars(out@) =~= hex_lower(b@.take(i + 1))) by {
            assert forall|j: int| 0 <= j < out@.len() implies #[trigger] ascii_chars(out@)[j] == hex_lower(b@.take(i + 1))[j] by {
                if j < before.len() {
                    assert(ascii_chars(before)[j] == hex_lower(b@.take(i as int))[j]);
                    assert(b@.take(i as int)[j / 2] == b@.take(i + 1)[j / 2]);
                }
            }
        }
        i += 1;
    }
    assert(b@.take(b@.len() as int) =~= b@);
    ascii_text(out)
}

/// Checks a downloaded release against the text of its published checksum
/// file, whose first word must be the lower-case hex SHA-256 of the bytes.
/// On a mismatch, the expected and the actual digest.
pub fn check_release_checksum(checksum_text: &str, body: &[u8]) -> (r: Result<(), (String, String)>)
    ensures
        r is Ok <==> first_word(checksum_text@) == hex_lower(spec_sha256(body@)),
        r matches Err((expected, actual)) ==> expected@ == first_word(checksum_text@)
            && actual@ == hex_lower(spec_sha256(body@)),
{
    let expected: &str = match first_whitespace_word(checksum_text) {
        Some(w) => w,
        None => {
            proof {
                reveal_strlit("");
                assert(first_word(checksum_text@) =~= ""@);
            }
            ""
        },
    };
    let digest = sha256(body);
    let actual = hex_lower_text(&digest);
    if text_eq(expected, actual.as_str()) {
        Ok(())
    } else {
        Err((String::from_str(expected), actual))
    }
}

} // verus!
