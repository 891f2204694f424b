//! Digests, authentication codes and their textual form.

use base64::engine::general_purpose::URL_SAFE_NO_PAD;
use base64::Engine;
use hmac::{Hmac, Mac};
use sha2::{Digest, Sha256};
use vstd::prelude::*;

verus! {

/// The HMAC-SHA256 authentication code of a message under a key.
pub uninterp spec fn hmac_sha256_of(key: Seq<u8>, message: Seq<u8>) -> Seq<u8>;

/// The SHA-256 digest of a message.
pub uninterp spec fn sha256_of(message: Seq<u8>) -> Seq<u8>;

/// Calls `hmac::Mac::finalize` for `Hmac<Sha256>`, which accepts a key of any
/// length. The result is 32 bytes that depend on the key and the message alone.
#[verifier::external_body]
pub(crate) fn hmac_sha256(key: &[u8], message: &[u8]) -> (code: Vec<u8>)
    ensures
        code@ == hmac_sha256_of(key@, message@),
        code@.len() == 32,
{
    let mut mac = <Hmac<Sha256> as Mac>::new_from_slice(key).expect("HMAC accepts keys of any length");
    mac.update(message);
    mac.finalize().into_bytes().to_vec()
}

/// Calls `hmac::Mac::verify_slice` for `Hmac<Sha256>`, which compares in
/// constant time and succeeds exactly on the full authentication code.
#[verifier::external_body]
pub(crate) fn hmac_sha256_matches(key: &[u8], message: &[u8], code: &[u8]) -> (matches: bool)
    ensures
        matches == (code@ == hmac_sha256_of(key@, message@)),
{
    let mut mac = <Hmac<Sha256> as Mac>::new_from_slice(key).expect("HMAC accepts keys of any length");
    mac.update(message);
    mac.verify_slice(code).is_ok()
}

/// Calls `sha2::Sha256::digest`. The result is 32 bytes that depend on the
/// message alone.
#[verifier::external_body]
pub(crate) fn sha256(message: &[u8]) -> (digest: Vec<u8>)
    ensures
        digest@ == sha256_of(message@),
        digest@.len() == 32,
{
    Sha256::digest(message).to_vec()
}

/// The character of a six-bit group in the URL-safe Base64 alphabet.
pub open spec fn base64url_char(value: int) -> char {
    if value < 26 {
        ('A' as int + value) as char
    } else if value < 52 {
        ('a' as int + (value - 26)) as char
    } else if value < 62 {
        ('0' as int + (value - 52)) as char
    } else if value == 62 {
        '-'
    } else {
        '_'
    }
}

/// The `j`-th group of six bits of a byte string, zeros beyond its end.
pub open spec fn six_bits(bytes: Seq<u8>, j: int) -> int {
    let i = 6 * j / 8;
    let pair = bytes[i] * 256 + (if i + 1 < bytes.len() {
        bytes[i + 1] as int
    } else {
        0
    });
    if 6 * j % 8 == 0 {
        pair / 1024
    } else if 6 * j % 8 == 6 {
        pair / 16 % 64
    } else if 6 * j % 8 == 4 {
        pair / 64 % 64
    } else {
        pair / 256 % 64
    }
}

/// Base64 in the URL-safe alphabet, without padding.
pub open spec fn base64url(bytes: Seq<u8>) -> Seq<char> {
    Seq::new(((8 * bytes.len() + 5) / 6) as nat, |j: int| base64url_char(six_bits(bytes, j)))
}

/// Calls `base64::Engine::encode` of `URL_SAFE_NO_PAD`: one character per six
/// bits, no padding.
#[verifier::external_body]
pub(crate) fn base64url_encode(bytes: &[u8]) -> (text: String)
    ensures
        text@ == base64url(bytes@),
{
    URL_SAFE_NO_PAD.encode(bytes)
}

/// Calls `base64::Engine::decode` of `URL_SAFE_NO_PAD`, which accepts only the
/// canonical spelling: no padding, no stray bits after the last byte. So a text
/// decodes to some bytes exactly when those bytes encode to that text.
#[verifier::external_body]
pub(crate) fn base64url_decode(text: &str) -> (bytes: Option<Vec<u8>>)
    ensures
        match bytes {
            Some(bytes) => base64url(bytes@) == text@,
            None => forall|any: Seq<u8>| #[trigger] base64url(any) != text@,
        },
{
    URL_SAFE_NO_PAD.decode(text).ok()
}

proof fn lemma_base64url_char_injective(a: int, b: int)
    requires
        0 <= a < 64,
        0 <= b < 64,
        base64url_char(a) == base64url_char(b),
    ensures
        a == b,
{
}

proof fn lemma_six_bits_range(bytes: Seq<u8>, j: int)
    requires
        0 <= j,
        6 * j / 8 < bytes.len(),
    ensures
        0 <= six_bits(bytes, j) < 64,
{
}

proof fn lemma_pair_groups(x: int, y: int)
    requires
        0 <= x < 256,
        0 <= y < 256,
    ensures
        (x * 256 + y) / 1024 == x / 4,
        (x * 256 + y) / 16 % 64 == x % 4 * 16 + y / 16,
        (x * 256 + y) / 64 % 64 == x % 16 * 4 + y / 64,
        (x * 256 + y) / 256 % 64 == x % 64,
{
    assert((x * 256 + y) / 16 == x * 16 + y / 16);
    assert(x * 16 + y / 16 == 64 * (x / 4) + (x % 4 * 16 + y / 16));
    assert((x * 256 + y) / 64 == x * 4 + y / 64);
    assert(x * 4 + y / 64 == 64 * (x / 16) + (x % 16 * 4 + y / 64));
    assert((x * 256 + y) / 256 == x);
}

/// The byte after position `i`, zero at the end.
spec fn next_byte(bytes: Seq<u8>, i: int) -> u8 {
    if i + 1 < bytes.len() {
        bytes[i + 1]
    } else {
        0
    }
}

proof fn lemma_groups_of_three(bytes: Seq<u8>, k: int)
    requires
        0 <= k,
    ensures
        3 * k < bytes.len() ==> six_bits(bytes, 4 * k) == bytes[3 * k] / 4 && six_bits(bytes, 4 * k + 1)
            == bytes[3 * k] % 4 * 16 + next_byte(bytes, 3 * k) / 16,
        3 * k + 1 < bytes.len() ==> six_bits(bytes, 4 * k + 2) == bytes[3 * k + 1] % 16 * 4 + next_byte(
            bytes,
            3 * k + 1,
        ) / 64,
        3 * k + 2 < bytes.len() ==> six_bits(bytes, 4 * k + 3) == bytes[3 * k + 2] % 64,
{
    assert(6 * (4 * k) / 8 == 3 * k && 6 * (4 * k) % 8 == 0);
    assert(6 * (4 * k + 1) / 8 == 3 * k && 6 * (4 * k + 1) % 8 == 6);
    assert(6 * (4 * k + 2) / 8 == 3 * k + 1 && 6 * (4 * k + 2) % 8 == 4);
    assert(6 * (4 * k + 3) / 8 == 3 * k + 2 && 6 * (4 * k + 3) % 8 == 2);
    lemma_pair_groups(bytes[3 * k] as int, next_byte(bytes, 3 * k) as int);
    lemma_pair_groups(bytes[3 * k + 1] as int, next_byte(bytes, 3 * k + 1) as int);
    lemma_pair_groups(bytes[3 * k + 2] as int, next_byte(bytes, 3 * k + 2) as int);
}

proof fn lemma_same_groups(a: Seq<u8>, b: Seq<u8>, j: int)
    requires
        base64url(a) == base64url(b),
        a.len() == b.len(),
        0 <= j,
        6 * j / 8 < a.len(),
    ensures
        six_bits(a, j) == six_bits(b, j),
{
    assert(j < (8 * a.len() + 5) / 6);
    assert(base64url(a)[j] == base64url_char(six_bits(a, j)));
    assert(base64url(b)[j] == base64url_char(six_bits(b, j)));
    lemma_six_bits_range(a, j);
    lemma_six_bits_range(b, j);
    lemma_base64url_char_injective(six_bits(a, j), six_bits(b, j));
}

/// No two byte strings share a Base64 spelling.
pub proof fn law_base64url_is_injective(a: Seq<u8>, b: Seq<u8>)
    requires
        base64url(a) == base64url(b),
    ensures
        a == b,
{
    assert(base64url(a).len() == (8 * a.len() + 5) / 6);
    assert(base64url(b).len() == (8 * b.len() + 5) / 6);
    assert(a.len() == b.len());
    assert forall|i: int| 0 <= i < a.len() implies a[i] == b[i] by {
        let k = i / 3;
        lemma_groups_of_three(a, k);
        lemma_groups_of_three(b, k);
        lemma_same_groups(a, b, 4 * k);
        lemma_same_groups(a, b, 4 * k + 1);
        if i % 3 >= 1 {
            lemma_same_groups(a, b, 4 * k + 2);
        }
        if i % 3 == 2 {
            lemma_same_groups(a, b, 4 * k + 3);
        }
    }
    assert(a =~= b);
}

/// A Base64 spelling never holds a full stop.
pub proof fn law_base64url_has_no_full_stop(bytes: Seq<u8>)
    ensures
        !base64url(bytes).contains('.'),
{
    assert forall|j: int| 0 <= j < base64url(bytes).len() implies base64url(bytes)[j] != '.' by {
        lemma_six_bits_range(bytes, j);
    }
}

}
