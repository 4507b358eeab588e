//! Endpoint identities, Ed25519 signing and SHA-256, over plain byte values.

use vstd::prelude::*;

verus! {

/// An endpoint's Ed25519 public key, as its 32 compressed bytes.
#[derive(Clone, Copy, Debug, PartialEq, Eq, Hash)]
pub struct EndpointId(pub [u8; 32]);

/// An Ed25519 signature, as its 64 bytes.
#[derive(Clone, Copy, Debug, PartialEq, Eq)]
pub struct Signature(pub [u8; 64]);

/// An Ed25519 signing key, as its 32 secret bytes.
pub struct SecretKey([u8; 32]);

/// The SHA-256 digest of a byte string.
pub uninterp spec fn spec_sha256(data: Seq<u8>) -> Seq<u8>;

/// The Ed25519 public key that belongs to a secret key.
pub uninterp spec fn spec_ed25519_public(secret: Seq<u8>) -> Seq<u8>;

/// The (deterministic) Ed25519 signature of a message under a secret key.
pub uninterp spec fn spec_ed25519_sign(secret: Seq<u8>, message: Seq<u8>) -> Seq<u8>;

/// Whether a signature is valid for a message under a public key (strict
/// verification; bytes that are not a valid curve point never verify).
pub uninterp spec fn spec_ed25519_verify(public: Seq<u8>, message: Seq<u8>, signature: Seq<u8>) -> bool;

/// Lexicographic order on byte strings of one length: the first differing
/// byte decides.
pub open spec fn bytes_lt(a: Seq<u8>, b: Seq<u8>) -> bool {
    exists|k: int|
        0 <= k < a.len() && k < b.len() && #[trigger] a.take(k) == b.take(k) && a[k] < b[k]
}

impl EndpointId {
    pub open spec fn bytes(self) -> Seq<u8> {
        self.0@
    }
}

/// SHA-256 of `data`: wraps `sha2::Sha256::digest`.
#[verifier::external_body]
pub fn sha256(data: &[u8]) -> (digest: [u8; 32])
    ensures
        digest@ == spec_sha256(data@),
{
    <sha2::Sha256 as sha2::Digest>::digest(data).into()
}

/// Whether `signature` verifies `message` under `public`: wraps
/// `iroh::PublicKey::from_bytes` and `iroh::PublicKey::verify`
/// (`verify_strict`). A key that does not decode never verifies.
#[verifier::external_body]
pub fn ed25519_verify(public: &EndpointId, message: &[u8], signature: &Signature) -> (valid: bool)
    ensures
        valid == spec_ed25519_verify(public.0@, message@, signature.0@),
{
    match iroh::PublicKey::from_bytes(&public.0) {
        Ok(key) => key.verify(message, &iroh::Signature::from_bytes(&signature.0)).is_ok(),
        Err(_) => false,
    }
}

impl SecretKey {
    pub closed spec fn bytes(&self) -> Seq<u8> {
        self.0@
    }

    pub fn from_bytes(bytes: &[u8; 32]) -> (key: SecretKey)
        ensures
            key.bytes() == bytes@,
    {
        SecretKey(*bytes)
    }

    pub fn to_bytes(&self) -> (bytes: [u8; 32])
        ensures
            bytes@ == self.bytes(),
    {
        self.0
    }

    /// A fresh random key: wraps `iroh::SecretKey::generate`, which draws
    /// its bytes from the operating system's random source. Nothing is
    /// known of the bytes.
    #[verifier::external_body]
    pub fn generate() -> (key: SecretKey) {
        SecretKey(iroh::SecretKey::generate().to_bytes())
    }

    /// The public half: wraps `iroh::SecretKey::public`.
    #[verifier::external_body]
    pub fn public(&self) -> (public: EndpointId)
        ensures
            public.0@ == spec_ed25519_public(self.bytes()),
    {
        EndpointId(*iroh::SecretKey::from_bytes(&self.0).public().as_bytes())
    }

    /// Signs `message`: wraps `iroh::SecretKey::sign` (deterministic
    /// Ed25519). A signature made this way verifies under the key's own
    /// public half.
    #[verifier::external_body]
    pub fn sign(&self, message: &[u8]) -> (signature: Signature)
        ensures
            signature.0@ == spec_ed25519_sign(self.bytes(), message@),
            spec_ed25519_verify(spec_ed25519_public(self.bytes()), message@, signature.0@),
    {
        Signature(iroh::SecretKey::from_bytes(&self.0).sign(message).to_bytes())
    }
}

/// Equality of two 32-byte strings.
pub fn bytes32_eq(a: &[u8; 32], b: &[u8; 32]) -> (eq: bool)
    ensures
        eq == (a@ == b@),
{
    let mut i: usize = 0;
    while i < 32
        invariant
            0 <= i <= 32,
            a@.len() == 32,
            b@.len() == 32,
            forall|j: int| 0 <= j < i ==> a@[j] == b@[j],
        decreases 32 - i,
    {
        if a[i] != b[i] {
            return false;
        }
        i += 1;
    }
    assert(a@ =~= b@);
    true
}

/// Strict lexicographic comparison of two 32-byte strings.
pub fn bytes32_lt(a: &[u8; 32], b: &[u8; 32]) -> (lt: bool)
    ensures
        lt == bytes_lt(a@, b@),
{
    let mut i: usize = 0;
    while i < 32
        invariant
            0 <= i <= 32,
            a@.len() == 32,
            b@.len() == 32,
            a@.take(i as int) == b@.take(i as int),
        decreases 32 - i,
    {
        if a[i] != b[i] {
            let lt = a[i] < b[i];
            proof {
                if !lt {
                    assert forall|k: int|
                        0 <= k < 32 && #[trigger] a@.take(k) == b@.take(k) implies !(a@[k] < b@[k]) by {
                        if k < i {
                            assert(a@.take(i as int)[k] == a@[k]);
                            assert(b@.take(i as int)[k] == b@[k]);
                        } else if k > i {
                            assert(a@.take(k)[i as int] == a@[i as int]);
                            assert(b@.take(k)[i as int] == b@[i as int]);
                        }
                    }
                }
            }
            return lt;
        }
        assert(a@.take(i + 1) =~= a@.take(i as int).push(a@[i as int]));
        assert(b@.take(i + 1) =~= b@.take(i as int).push(b@[i as int]));
        i += 1;
    }
    proof {
        assert forall|k: int| 0 <= k < 32 && #[trigger] a@.take(k) == b@.take(k) implies !(a@[k] < b@[k]) by {
            assert(a@.take(32)[k] == a@[k]);
            assert(b@.take(32)[k] == b@[k]);
        }
    }
    false
}

pub proof fn lemma_bytes_lt_irreflexive(a: Seq<u8>)
    ensures
        !bytes_lt(a, a),
{
}

pub proof fn lemma_bytes_lt_transitive(a: Seq<u8>, b: Seq<u8>, c: Seq<u8>)
    requires
        bytes_lt(a, b),
        bytes_lt(b, c),
    ensures
        bytes_lt(a, c),
{
    let k1 = choose|k: int| 0 <= k < a.len() && k < b.len() && #[trigger] a.take(k) == b.take(k) && a[k] < b[k];
    let k2 = choose|k: int| 0 <= k < b.len() && k < c.len() && #[trigger] b.take(k) == c.take(k) && b[k] < c[k];
    if k1 < k2 {
        assert(b.take(k2)[k1] == c.take(k2)[k1]);
        assert(c.take(k1) =~= c.take(k2).take(k1));
        assert(b.take(k1) =~= b.take(k2).take(k1));
        assert(a.take(k1) == c.take(k1) && a[k1] < c[k1]);
    } else if k2 < k1 {
        assert(a.take(k1)[k2] == b.take(k1)[k2]);
        assert(a.take(k2) =~= a.take(k1).take(k2));
        assert(b.take(k2) =~= b.take(k1).take(k2));
        assert(a.take(k2) == c.take(k2) && a[k2] < c[k2]);
    } else {
        assert(a.take(k1) == c.take(k1) && a[k1] < c[k1]);
    }
}

proof fn first_difference(a: Seq<u8>, b: Seq<u8>, start: int) -> (k: int)
    requires
        a.len() == b.len(),
        0 <= start <= a.len(),
        a.take(start) == b.take(start),
        a != b,
    ensures
        start <= k < a.len(),
        a.take(k) == b.take(k),
        a[k] != b[k],
    decreases a.len() - start,
{
    if start == a.len() {
        assert(a =~= a.take(start));
        assert(b =~= b.take(start));
        start
    } else if a[start] != b[start] {
        start
    } else {
        assert(a.take(start + 1) =~= a.take(start).push(a[start]));
        assert(b.take(start + 1) =~= b.take(start).push(b[start]));
        first_difference(a, b, start + 1)
    }
}

pub proof fn lemma_bytes_lt_total(a: Seq<u8>, b: Seq<u8>)
    requires
        a.len() == b.len(),
    ensures
        a == b || bytes_lt(a, b) || bytes_lt(b, a),
{
    if a != b {
        assert(a.take(0) =~= b.take(0));
        let k = first_difference(a, b, 0);
        if a[k] < b[k] {
            assert(bytes_lt(a, b));
        } else {
            assert(b.take(k) == a.take(k));
            assert(bytes_lt(b, a));
        }
    }
}

/// Strictly increasing, every pair in order: sorted with no repeats.
pub open spec fn hashes_sorted(s: Seq<[u8; 32]>) -> bool {
    forall|i: int, j: int| 0 <= i < j < s.len() ==> #[trigger] bytes_lt(s[i]@, s[j]@)
}

/// The same elements, as sets.
pub open spec fn same_elements(a: Seq<[u8; 32]>, b: Seq<[u8; 32]>) -> bool {
    forall|x: [u8; 32]| a.contains(x) <==> b.contains(x)
}

pub proof fn lemma_neighbours_sorted(s: Seq<[u8; 32]>)
    requires
        forall|i: int| 0 <= i < s.len() - 1 ==> #[trigger] bytes_lt(s[i]@, s[i + 1]@),
    ensures
        hashes_sorted(s),
{
    assert forall|i: int, j: int| 0 <= i < j < s.len() implies #[trigger] bytes_lt(s[i]@, s[j]@) by {
        lemma_neighbours_sorted_from(s, i, j);
    }
}

proof fn lemma_neighbours_sorted_from(s: Seq<[u8; 32]>, i: int, j: int)
    requires
        forall|k: int| 0 <= k < s.len() - 1 ==> #[trigger] bytes_lt(s[k]@, s[k + 1]@),
        0 <= i < j < s.len(),
    ensures
        bytes_lt(s[i]@, s[j]@),
    decreases j - i,
{
    if j > i + 1 {
        lemma_neighbours_sorted_from(s, i, j - 1);
        let k = j - 1;
        assert(bytes_lt(s[k]@, s[k + 1]@));
        assert(s[k + 1] == s[j]);
        lemma_bytes_lt_transitive(s[i]@, s[j - 1]@, s[j]@);
    } else {
        let k = i;
        assert(bytes_lt(s[k]@, s[k + 1]@));
        assert(s[k + 1] == s[j]);
    }
}

/// Equality of two 32-byte arrays.
pub fn hash_eq(a: &[u8; 32], b: &[u8; 32]) -> (eq: bool)
    ensures
        eq == (*a == *b),
{
    let eq = bytes32_eq(a, b);
    proof {
        if eq {
            assert(*a =~= *b);
        }
    }
    eq
}

/// Whether the hashes are strictly increasing.
pub fn hashes_are_sorted(s: &[[u8; 32]]) -> (r: bool)
    ensures
        r == hashes_sorted(s@),
{
    if s.len() < 2 {
        return true;
    }
    let mut i: usize = 0;
    while i + 1 < s.len()
        invariant
            0 <= i < s@.len(),
            forall|k: int| 0 <= k < i ==> #[trigger] bytes_lt(s@[k]@, s@[k + 1]@),
        decreases s.len() - i,
    {
        if !bytes32_lt(&s[i], &s[i + 1]) {
            proof {
                assert(!bytes_lt(s@[i as int]@, s@[i + 1]@));
            }
            return false;
        }
        i += 1;
    }
    proof {
        lemma_neighbours_sorted(s@);
    }
    true
}

/// The hashes sorted, each once.
pub fn sort_dedup_hashes(v: &Vec<[u8; 32]>) -> (out: Vec<[u8; 32]>)
    ensures
        hashes_sorted(out@),
        same_elements(out@, v@),
        out@.len() <= v@.len(),
{
    let mut out: Vec<[u8; 32]> = Vec::new();
    let mut i: usize = 0;
    while i < v.len()
        invariant
            0 <= i <= v@.len(),
            hashes_sorted(out@),
            same_elements(out@, v@.take(i as int)),
            out@.len() <= i,
        decreases v.len() - i,
    {
        let x = v[i];
        let mut j: usize = 0;
        while j < out.len() && bytes32_lt(&out[j], &x)
            invariant
                0 <= j <= out@.len(),
                forall|k: int| 0 <= k < j ==> #[trigger] bytes_lt(out@[k]@, x@),
            decreases out.len() - j,
        {
            j += 1;
        }
        let ghost before = out@;
        let ghost t0 = v@.take(i as int);
        let ghost t1 = v@.take(i + 1);
        proof {
            assert(t1 =~= t0.push(x));
        }
        if j < out.len() && hash_eq(&out[j], &x) {
            proof {
                assert forall|y: [u8; 32]| out@.contains(y) <==> t1.contains(y) by {
                    if t1.contains(y) && !t0.contains(y) {
                        let k = choose|k: int| 0 <= k < i + 1 && t1[k] == y;
                        if k < i {
                            assert(t0[k] == y);
                        }
                        assert(out@[j as int] == y);
                    }
                    if t0.contains(y) {
                        let k = choose|k: int| 0 <= k < i && t0[k] == y;
                        assert(t1[k] == y);
                    }
                }
            }
        } else {
            proof {
                if j < out.len() {
                    lemma_bytes_lt_total(out@[j as int]@, x@);
                    if out@[j as int]@ == x@ {
                        assert(out@[j as int] =~= x);
                    }
                    assert(bytes_lt(x@, out@[j as int]@));
                }
            }
            out.insert(j, x);
            proof {
                assert forall|a: int, b: int| 0 <= a < b < out@.len() implies #[trigger] bytes_lt(out@[a]@, out@[b]@) by {
                    if b < j {
                        assert(out@[a] == before[a] && out@[b] == before[b]);
                    } else if b == j {
                        assert(out@[a] == before[a]);
                    } else if a == j {
                        assert(out@[b] == before[b - 1]);
                        if b - 1 > j {
                            assert(bytes_lt(before[j as int]@, before[b - 1]@));
                            lemma_bytes_lt_transitive(x@, before[j as int]@, before[b - 1]@);
                        }
                    } else if a < j {
                        assert(out@[a] == before[a] && out@[b] == before[b - 1]);
                        if b - 1 >= j {
                            assert(bytes_lt(before[a]@, x@));
                        }
                    } else {
                        assert(out@[a] == before[a - 1] && out@[b] == before[b - 1]);
                    }
                }
                assert forall|y: [u8; 32]| out@.contains(y) <==> t1.contains(y) by {
                    if out@.contains(y) {
                        let k = choose|k: int| 0 <= k < out@.len() && out@[k] == y;
                        if k < j {
                            assert(before[k] == y);
                            assert(before.contains(y));
                        } else if k > j {
                            assert(before[k - 1] == y);
                            assert(before.contains(y));
                        }
                        if before.contains(y) {
                            let m = choose|m: int| 0 <= m < i && t0[m] == y;
                            assert(t1[m] == y);
                        } else {
                            assert(t1[i as int] == y);
                        }
                    }
                    if t1.contains(y) {
                        let k = choose|k: int| 0 <= k < i + 1 && t1[k] == y;
                        if k < i {
                            assert(t0[k] == y);
                            assert(before.contains(y));
                            let m = choose|m: int| 0 <= m < before.len() && before[m] == y;
                            if m < j {
                                assert(out@[m] == y);
                            } else {
                                assert(out@[m + 1] == y);
                            }
                        } else {
                            assert(out@[j as int] == y);
                        }
                    }
                }
            }
        }
        i += 1;
    }
    assert(v@.take(v@.len() as int) =~= v@);
    out
}

} // verus!
