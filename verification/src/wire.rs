//! The canonical binary encoding that every signed structure is hashed and
//! signed over: unsigned integers as little-endian base-128 varints, signed
//! integers zig-zag mapped first, fixed byte arrays raw, byte strings and
//! lists length-prefixed, options and enum variants tagged by a varint.

use vstd::prelude::*;
use vstd::string::StringSliceAdditionalSpecFns;
use vstd::utf8::{decode_utf8, encode_utf8, valid_utf8};

verus! {

/// The varint encoding of `n`: seven bits per byte, least significant
/// group first, the high bit set on every byte but the last.
pub open spec fn varint(n: nat) -> Seq<u8>
    decreases n,
{
    if n < 128 {
        seq![n as u8]
    } else {
        seq![(n % 128 + 128) as u8] + varint(n / 128)
    }
}

/// The zig-zag image of a signed integer: non-negative values to even
/// numbers, negative values to odd ones.
pub open spec fn zigzag(i: int) -> nat {
    if i >= 0 {
        (2 * i) as nat
    } else {
        (-2 * i - 1) as nat
    }
}

/// A length-prefixed byte string.
pub open spec fn bytes_field(b: Seq<u8>) -> Seq<u8> {
    varint(b.len()) + b
}

/// An optional 32-byte value: a zero tag, or a one tag and the bytes.
pub open spec fn option_bytes(o: Option<Seq<u8>>) -> Seq<u8> {
    match o {
        None => seq![0u8],
        Some(b) => seq![1u8] + b,
    }
}

/// The concatenation of a list of byte strings.
pub open spec fn flatten(s: Seq<Seq<u8>>) -> Seq<u8>
    decreases s.len(),
{
    if s.len() == 0 {
        Seq::empty()
    } else {
        flatten(s.drop_last()) + s.last()
    }
}

/// A length-prefixed list of fixed-size byte arrays.
pub open spec fn list_field(s: Seq<Seq<u8>>) -> Seq<u8> {
    varint(s.len()) + flatten(s)
}

pub proof fn lemma_varint_len(n: nat)
    ensures
        n < 128 ==> varint(n).len() == 1,
        varint(n).len() >= 1,
    decreases n,
{
    if n >= 128 {
        lemma_varint_len(n / 128);
    }
}

/// Appends the varint encoding of `v`.
pub fn push_varint(out: &mut Vec<u8>, v: u64)
    ensures
        final(out)@ == old(out)@ + varint(v as nat),
{
    let mut x = v;
    while x >= 128
        invariant
            old(out)@ + varint(v as nat) == out@ + varint(x as nat),
        decreases x,
    {
        let ghost before = out@;
        out.push((x % 128 + 128) as u8);
        assert(varint(x as nat) == seq![(x % 128 + 128) as u8] + varint((x / 128) as nat));
        assert(before + varint(x as nat) =~= out@ + varint((x / 128) as nat));
        x = x / 128;
    }
    out.push(x as u8);
    assert(varint(x as nat) =~= seq![x as u8]);
}

/// The zig-zag image of `i`, as postcard computes it.
pub fn zigzag_u64(i: i64) -> (z: u64)
    ensures
        z as nat == zigzag(i as int),
{
    if i >= 0 {
        (i as u64) * 2
    } else {
        ((-(i + 1)) as u64) * 2 + 1
    }
}

/// Appends bytes verbatim.
pub fn push_raw(out: &mut Vec<u8>, bytes: &[u8])
    ensures
        final(out)@ == old(out)@ + bytes@,
{
    let mut i: usize = 0;
    while i < bytes.len()
        invariant
            0 <= i <= bytes@.len(),
            out@ == old(out)@ + bytes@.take(i as int),
        decreases bytes.len() - i,
    {
        out.push(bytes[i]);
        assert(bytes@.take(i + 1) =~= bytes@.take(i as int).push(bytes@[i as int]));
        i += 1;
    }
    assert(bytes@.take(bytes@.len() as int) =~= bytes@);
}

/// Appends a length-prefixed byte string.
pub fn push_bytes_field(out: &mut Vec<u8>, bytes: &[u8])
    ensures
        final(out)@ == old(out)@ + bytes_field(bytes@),
{
    push_varint(out, bytes.len() as u64);
    push_raw(out, bytes);
    assert(old(out)@ + bytes_field(bytes@) =~= old(out)@ + varint(bytes@.len()) + bytes@);
}

/// Appends an optional 32-byte value.
pub fn push_option32(out: &mut Vec<u8>, o: &Option<[u8; 32]>)
    ensures
        final(out)@ == old(out)@ + option_bytes(
            match *o {
                None => None,
                Some(b) => Some(b@),
            },
        ),
{
    match o {
        None => {
            out.push(0u8);
            assert(out@ =~= old(out)@ + seq![0u8]);
        },
        Some(b) => {
            out.push(1u8);
            push_raw(out, b);
            assert(out@ =~= old(out)@ + (seq![1u8] + b@));
        },
    }
}

/// Appends a length-prefixed list of 32-byte values.
pub fn push_list32(out: &mut Vec<u8>, items: &Vec<[u8; 32]>)
    ensures
        final(out)@ == old(out)@ + list_field(items@.map_values(|b: [u8; 32]| b@)),
{
    let ghost views = items@.map_values(|b: [u8; 32]| b@);
    push_varint(out, items.len() as u64);
    let ghost start = out@;
    let mut i: usize = 0;
    while i < items.len()
        invariant
            0 <= i <= items@.len(),
            views == items@.map_values(|b: [u8; 32]| b@),
            out@ == start + flatten(views.take(i as int)),
        decreases items.len() - i,
    {
        push_raw(out, &items[i]);
        assert(views.take(i + 1).drop_last() =~= views.take(i as int));
        i += 1;
    }
    assert(views.take(items@.len() as int) =~= views);
    assert(final(out)@ =~= old(out)@ + (varint(views.len()) + flatten(views)));
}

/// Appends the UTF-8 bytes of a text.
pub fn push_text(out: &mut Vec<u8>, text: &str)
    ensures
        final(out)@ == old(out)@ + text.spec_bytes(),
{
    push_raw(out, text.as_bytes());
}

/// The UTF-8 bytes of a text.
pub open spec fn utf8(s: Seq<char>) -> Seq<u8> {
    vstd::utf8::encode_utf8(s)
}

/// A length-prefixed UTF-8 text.
pub open spec fn text_field(s: Seq<char>) -> Seq<u8> {
    bytes_field(utf8(s))
}

/// Appends a length-prefixed UTF-8 text.
pub fn push_string(out: &mut Vec<u8>, s: &String)
    ensures
        final(out)@ == old(out)@ + text_field(s@),
{
    let text = s.as_str();
    push_bytes_field(out, text.as_bytes());
}

/// The length of a text in UTF-8 bytes.
pub fn utf8_len(s: &String) -> (n: usize)
    ensures
        n == utf8(s@).len(),
{
    s.as_str().as_bytes().len()
}

/// A string from UTF-8 bytes: wraps `String::from_utf8`, which refuses
/// bytes that are not valid UTF-8.
#[verifier::external_body]
pub(crate) fn string_from_utf8(bytes: Vec<u8>) -> (r: Option<String>)
    ensures
        match r {
            Some(s) => valid_utf8(bytes@) && s@ == decode_utf8(bytes@),
            None => !valid_utf8(bytes@),
        },
{
    match String::from_utf8(bytes) {
        Ok(s) => Some(s),
        Err(_) => None,
    }
}

/// Bytes below 128, one character each.
pub open spec fn ascii_chars(b: Seq<u8>) -> Seq<char> {
    b.map_values(|x: u8| x as char)
}

/// The string of some ASCII bytes.
pub fn ascii_text(bytes: Vec<u8>) -> (s: String)
    requires
        forall|i: int| 0 <= i < bytes@.len() ==> bytes@[i] < 128,
    ensures
        s@ == ascii_chars(bytes@),
{
    let ghost chars = ascii_chars(bytes@);
    proof {
        assert forall|i: int| 0 <= i < chars.len() implies '\0' <= #[trigger] chars[i] <= '\u{7f}' by {
            assert(bytes@[i] < 128);
        }
        vstd::utf8::is_ascii_chars_encode_utf8(chars);
        assert(encode_utf8(chars) =~= bytes@);
        vstd::utf8::encode_utf8_valid_utf8(chars);
        vstd::utf8::encode_utf8_decode_utf8(chars);
    }
    match string_from_utf8(bytes) {
        Some(s) => s,
        None => String::new(),
    }
}

/// Whether two texts are the same characters.
pub fn text_eq(a: &str, b: &str) -> (eq: bool)
    ensures
        eq == (a@ == b@),
{
    let r = bytes_equal(a.as_bytes(), b.as_bytes());
    proof {
        vstd::utf8::encode_utf8_decode_utf8(a@);
        vstd::utf8::encode_utf8_decode_utf8(b@);
    }
    r
}

/// Every byte is zero.
pub open spec fn all_zero(b: Seq<u8>) -> bool {
    forall|i: int| 0 <= i < b.len() ==> b[i] == 0
}

/// Whether every byte is zero.
pub fn is_all_zero(b: &[u8]) -> (r: bool)
    ensures
        r == all_zero(b@),
{
    let mut i: usize = 0;
    while i < b.len()
        invariant
            0 <= i <= b@.len(),
            forall|j: int| 0 <= j < i ==> b@[j] == 0,
        decreases b.len() - i,
    {
        if b[i] != 0 {
            return false;
        }
        i += 1;
    }
    true
}

/// One more than the largest value a varint of at most `k` bytes can
/// carry when its `k`-th byte may be at most `last_max`.
pub open spec fn varint_bound(k: nat, last_max: nat) -> nat
    decreases k,
{
    if k <= 1 {
        last_max + 1
    } else {
        128 * varint_bound((k - 1) as nat, last_max)
    }
}

/// Reading a varint at `pos`: at most `k` bytes, the `k`-th at most
/// `last_max`; groups of seven bits, least significant first. Encodings
/// with needless continuation bytes are read too. The value and the
/// position after it.
pub open spec fn varint_at(s: Seq<u8>, pos: int, k: nat, last_max: nat) -> Option<(nat, int)>
    decreases k,
{
    if k == 0 || pos < 0 || pos >= s.len() {
        None
    } else if s[pos] < 128 {
        if k == 1 && s[pos] > last_max {
            None
        } else {
            Some((s[pos] as nat, pos + 1))
        }
    } else if k == 1 {
        None
    } else {
        match varint_at(s, pos + 1, (k - 1) as nat, last_max) {
            None => None,
            Some((v, p)) => Some(((s[pos] - 128) as nat + 128 * v, p)),
        }
    }
}

/// A `u64` (or `usize`) varint.
pub open spec fn u64_at(s: Seq<u8>, pos: int) -> Option<(nat, int)> {
    varint_at(s, pos, 10, 1)
}

/// A `u32` varint; also an enum's variant index.
pub open spec fn u32_at(s: Seq<u8>, pos: int) -> Option<(nat, int)> {
    varint_at(s, pos, 5, 15)
}

/// A `u16` varint.
pub open spec fn u16_at(s: Seq<u8>, pos: int) -> Option<(nat, int)> {
    varint_at(s, pos, 3, 3)
}

/// `n` raw bytes at `pos`.
pub open spec fn raw_at(s: Seq<u8>, pos: int, n: nat) -> Option<(Seq<u8>, int)> {
    if 0 <= pos && pos + n <= s.len() {
        Some((s.subrange(pos, pos + n), pos + n))
    } else {
        None
    }
}

/// A length-prefixed byte string at `pos`.
pub open spec fn bytes_field_at(s: Seq<u8>, pos: int) -> Option<(Seq<u8>, int)> {
    match u64_at(s, pos) {
        None => None,
        Some((n, p)) => raw_at(s, p, n),
    }
}

/// An optional 32-byte value at `pos`: a zero tag, or a one tag and the bytes.
pub open spec fn option32_at(s: Seq<u8>, pos: int) -> Option<(Option<Seq<u8>>, int)> {
    if 0 <= pos < s.len() && s[pos] == 0 {
        Some((None, pos + 1))
    } else if 0 <= pos < s.len() && s[pos] == 1 {
        match raw_at(s, pos + 1, 32) {
            None => None,
            Some((b, p)) => Some((Some(b), p)),
        }
    } else {
        None
    }
}

pub proof fn lemma_varint_bound_positive(k: nat, last_max: nat)
    ensures
        varint_bound(k, last_max) >= 1,
        k >= 2 ==> varint_bound(k, last_max) >= 128,
    decreases k,
{
    if k > 1 {
        lemma_varint_bound_positive((k - 1) as nat, last_max);
    }
}

pub proof fn lemma_varint_at_bounds(s: Seq<u8>, pos: int, k: nat, last_max: nat)
    ensures
        varint_at(s, pos, k, last_max) matches Some((v, p)) ==> v < varint_bound(k, last_max) && pos < p <= s.len(),
    decreases k,
{
    lemma_varint_bound_positive(k, last_max);
    if k > 1 && 0 <= pos < s.len() && s[pos] >= 128 {
        lemma_varint_at_bounds(s, pos + 1, (k - 1) as nat, last_max);
        lemma_varint_bound_positive((k - 1) as nat, last_max);
    }
}

/// Reading back the varint encoding of `n` gives `n`, whatever precedes
/// and follows it.
pub proof fn lemma_varint_at_encoding(pre: Seq<u8>, n: nat, rest: Seq<u8>, k: nat, last_max: nat)
    requires
        k >= 1,
        last_max < 128,
        n < varint_bound(k, last_max),
    ensures
        varint_at(pre + varint(n) + rest, pre.len() as int, k, last_max) == Some((n, (pre.len() + varint(n).len()) as int)),
    decreases n,
{
    let s = pre + varint(n) + rest;
    if n < 128 {
        assert(s[pre.len() as int] == n as u8);
    } else {
        if k == 1 {
            assert(false);
        }
        let b = (n % 128 + 128) as u8;
        assert(varint(n) == seq![b] + varint(n / 128));
        let pre2 = pre.push(b);
        assert(s =~= pre2 + varint(n / 128) + rest);
        assert(s[pre.len() as int] == b);
        assert(n / 128 < varint_bound((k - 1) as nat, last_max));
        lemma_varint_at_encoding(pre2, n / 128, rest, (k - 1) as nat, last_max);
        assert((b - 128) as nat + 128 * (n / 128) == n);
    }
}

/// Reading back raw bytes gives them, whatever precedes and follows them.
pub proof fn lemma_raw_at_encoding(pre: Seq<u8>, b: Seq<u8>, rest: Seq<u8>)
    ensures
        raw_at(pre + b + rest, pre.len() as int, b.len()) == Some((b, (pre.len() + b.len()) as int)),
{
    let s = pre + b + rest;
    assert(s.subrange(pre.len() as int, (pre.len() + b.len()) as int) =~= b);
}

/// Reading back a length-prefixed byte string gives it.
pub proof fn lemma_bytes_field_at_encoding(pre: Seq<u8>, b: Seq<u8>, rest: Seq<u8>)
    requires
        b.len() < 0x1_0000_0000_0000_0000,
    ensures
        bytes_field_at(pre + bytes_field(b) + rest, pre.len() as int) == Some((b, (pre.len() + bytes_field(b).len()) as int)),
{
    lemma_postcard_bounds();
    let s = pre + bytes_field(b) + rest;
    assert(s =~= pre + varint(b.len()) + (b + rest));
    lemma_varint_at_encoding(pre, b.len(), b + rest, 10, 1);
    let p = pre + varint(b.len());
    assert(s =~= p + b + rest);
    lemma_raw_at_encoding(p, b, rest);
}

/// The first of a list's byte strings leads its concatenation.
pub proof fn lemma_flatten_first(s: Seq<Seq<u8>>)
    requires
        s.len() > 0,
    ensures
        flatten(s) == s[0] + flatten(s.drop_first()),
    decreases s.len(),
{
    if s.len() == 1 {
        assert(s.drop_last() =~= Seq::<Seq<u8>>::empty());
        assert(s.drop_first() =~= Seq::<Seq<u8>>::empty());
        assert(flatten(s) =~= s[0] + flatten(s.drop_first()));
    } else {
        lemma_flatten_first(s.drop_last());
        assert(s.drop_last().drop_first() =~= s.drop_first().drop_last());
        assert(s.drop_first().last() == s.last());
        assert(flatten(s) =~= s[0] + flatten(s.drop_first()));
    }
}

/// Reads a varint at `pos`.
pub fn read_varint(s: &[u8], pos: usize, k: usize, last_max: u8) -> (r: Option<(u64, usize)>)
    requires
        1 <= k,
        varint_bound(k as nat, last_max as nat) <= 0x1_0000_0000_0000_0000,
    ensures
        match varint_at(s@, pos as int, k as nat, last_max as nat) {
            None => r is None,
            Some((v, p)) => r matches Some((x, q)) && x == v && q == p,
        },
    decreases k,
{
    if pos >= s.len() {
        return None;
    }
    let b = s[pos];
    if b < 128 {
        if k == 1 && b > last_max {
            return None;
        }
        return Some((b as u64, pos + 1));
    }
    if k == 1 {
        return None;
    }
    assert(varint_bound(k as nat, last_max as nat) == 128 * varint_bound((k - 1) as nat, last_max as nat));
    match read_varint(s, pos + 1, k - 1, last_max) {
        None => None,
        Some((v, p)) => {
            proof {
                lemma_varint_at_bounds(s@, pos + 1, (k - 1) as nat, last_max as nat);
            }
            Some(((b - 128) as u64 + 128 * v, p))
        },
    }
}

pub proof fn lemma_postcard_bounds()
    ensures
        varint_bound(10, 1) == 0x1_0000_0000_0000_0000,
        varint_bound(5, 15) == 0x1_0000_0000,
        varint_bound(3, 3) == 0x1_0000,
{
    reveal_with_fuel(varint_bound, 11);
}

pub fn read_u64(s: &[u8], pos: usize) -> (r: Option<(u64, usize)>)
    ensures
        match u64_at(s@, pos as int) {
            None => r is None,
            Some((v, p)) => r matches Some((x, q)) && x == v && q == p,
        },
{
    proof {
        lemma_postcard_bounds();
    }
    read_varint(s, pos, 10, 1)
}

pub fn read_u32(s: &[u8], pos: usize) -> (r: Option<(u32, usize)>)
    ensures
        match u32_at(s@, pos as int) {
            None => r is None,
            Some((v, p)) => r matches Some((x, q)) && x == v && q == p,
        },
{
    proof {
        lemma_postcard_bounds();
        lemma_varint_at_bounds(s@, pos as int, 5, 15);
    }
    match read_varint(s, pos, 5, 15) {
        None => None,
        Some((v, p)) => Some((v as u32, p)),
    }
}

pub fn read_u16(s: &[u8], pos: usize) -> (r: Option<(u16, usize)>)
    ensures
        match u16_at(s@, pos as int) {
            None => r is None,
            Some((v, p)) => r matches Some((x, q)) && x == v && q == p,
        },
{
    proof {
        lemma_postcard_bounds();
        lemma_varint_at_bounds(s@, pos as int, 3, 3);
    }
    match read_varint(s, pos, 3, 3) {
        None => None,
        Some((v, p)) => Some((v as u16, p)),
    }
}

/// Reads `n` raw bytes at `pos`.
pub fn read_raw(s: &[u8], pos: usize, n: usize) -> (r: Option<(Vec<u8>, usize)>)
    ensures
        match raw_at(s@, pos as int, n as nat) {
            None => r is None,
            Some((b, p)) => r matches Some((x, q)) && x@ == b && q == p,
        },
{
    if pos > s.len() || n > s.len() - pos {
        return None;
    }
    let mut out: Vec<u8> = Vec::new();
    let mut i: usize = 0;
    while i < n
        invariant
            0 <= i <= n,
            pos + n <= s.len(),
            out@ == s@.subrange(pos as int, pos + i),
        decreases n - i,
    {
        out.push(s[pos + i]);
        assert(s@.subrange(pos as int, pos + i + 1) =~= s@.subrange(pos as int, pos + i).push(s@[pos + i]));
        i += 1;
    }
    Some((out, pos + n))
}

/// Reads 32 raw bytes at `pos`.
pub fn read_array32(s: &[u8], pos: usize) -> (r: Option<([u8; 32], usize)>)
    ensures
        match raw_at(s@, pos as int, 32) {
            None => r is None,
            Some((b, p)) => r matches Some((x, q)) && x@ == b && q == p,
        },
{
    if pos > s.len() || 32 > s.len() - pos {
        return None;
    }
    let mut out: [u8; 32] = [0u8; 32];
    let mut i: usize = 0;
    while i < 32
        invariant
            0 <= i <= 32,
            pos + 32 <= s.len(),
            out@.len() == 32,
            forall|j: int| 0 <= j < i ==> out@[j] == s@[pos + j],
        decreases 32 - i,
    {
        out.set(i, s[pos + i]);
        i += 1;
    }
    assert(out@ =~= s@.subrange(pos as int, pos + 32));
    Some((out, pos + 32))
}

/// Reads 16 raw bytes at `pos`.
pub fn read_array16(s: &[u8], pos: usize) -> (r: Option<([u8; 16], usize)>)
    ensures
        match raw_at(s@, pos as int, 16) {
            None => r is None,
            Some((b, p)) => r matches Some((x, q)) && x@ == b && q == p,
        },
{
    if pos > s.len() || 16 > s.len() - pos {
        return None;
    }
    let mut out: [u8; 16] = [0u8; 16];
    let mut i: usize = 0;
    while i < 16
        invariant
            0 <= i <= 16,
            pos + 16 <= s.len(),
            out@.len() == 16,
            forall|j: int| 0 <= j < i ==> out@[j] == s@[pos + j],
        decreases 16 - i,
    {
        out.set(i, s[pos + i]);
        i += 1;
    }
    assert(out@ =~= s@.subrange(pos as int, pos + 16));
    Some((out, pos + 16))
}

/// Reads 12 raw bytes at `pos`.
pub fn read_array12(s: &[u8], pos: usize) -> (r: Option<([u8; 12], usize)>)
    ensures
        match raw_at(s@, pos as int, 12) {
            None => r is None,
            Some((b, p)) => r matches Some((x, q)) && x@ == b && q == p,
        },
{
    if pos > s.len() || 12 > s.len() - pos {
        return None;
    }
    let mut out: [u8; 12] = [0u8; 12];
    let mut i: usize = 0;
    while i < 12
        invariant
            0 <= i <= 12,
            pos + 12 <= s.len(),
            out@.len() == 12,
            forall|j: int| 0 <= j < i ==> out@[j] == s@[pos + j],
        decreases 12 - i,
    {
        out.set(i, s[pos + i]);
        i += 1;
    }
    assert(out@ =~= s@.subrange(pos as int, pos + 12));
    Some((out, pos + 12))
}

/// Reads 64 raw bytes at `pos`.
pub fn read_array64(s: &[u8], pos: usize) -> (r: Option<([u8; 64], usize)>)
    ensures
        match raw_at(s@, pos as int, 64) {
            None => r is None,
            Some((b, p)) => r matches Some((x, q)) && x@ == b && q == p,
        },
{
    if pos > s.len() || 64 > s.len() - pos {
        return None;
    }
    let mut out: [u8; 64] = [0u8; 64];
    let mut i: usize = 0;
    while i < 64
        invariant
            0 <= i <= 64,
            pos + 64 <= s.len(),
            out@.len() == 64,
            forall|j: int| 0 <= j < i ==> out@[j] == s@[pos + j],
        decreases 64 - i,
    {
        out.set(i, s[pos + i]);
        i += 1;
    }
    assert(out@ =~= s@.subrange(pos as int, pos + 64));
    Some((out, pos + 64))
}

/// Reads a length-prefixed byte string at `pos`.
pub fn read_bytes_field(s: &[u8], pos: usize) -> (r: Option<(Vec<u8>, usize)>)
    ensures
        match bytes_field_at(s@, pos as int) {
            None => r is None,
            Some((b, p)) => r matches Some((x, q)) && x@ == b && q == p,
        },
{
    match read_u64(s, pos) {
        None => None,
        Some((n, p)) => {
            if n > s.len() as u64 {
                return None;
            }
            read_raw(s, p, n as usize)
        },
    }
}

/// Reads an optional 32-byte value at `pos`.
pub fn read_option32(s: &[u8], pos: usize) -> (r: Option<(Option<[u8; 32]>, usize)>)
    ensures
        match option32_at(s@, pos as int) {
            None => r is None,
            Some((o, p)) => r matches Some((x, q)) && q == p && match x {
                None => o is None,
                Some(b) => o == Some(b@),
            },
        },
{
    if pos >= s.len() {
        return None;
    }
    if s[pos] == 0 {
        return Some((None, pos + 1));
    }
    if s[pos] != 1 {
        return None;
    }
    match read_array32(s, pos + 1) {
        None => None,
        Some((b, p)) => Some((Some(b), p)),
    }
}

/// Whether two byte strings are equal.
pub fn bytes_equal(a: &[u8], b: &[u8]) -> (eq: bool)
    ensures
        eq == (a@ == b@),
{
    if a.len() != b.len() {
        return false;
    }
    let mut i: usize = 0;
    while i < a.len()
        invariant
            0 <= i <= a@.len(),
            a@.len() == b@.len(),
            forall|j: int| 0 <= j < i ==> a@[j] == b@[j],
        decreases a.len() - i,
    {
        if a[i] != b[i] {
            return false;
        }
        i += 1;
    }
    assert(a@ =~= b@);
    true
}

} // verus!
