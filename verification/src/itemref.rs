//! Signed item references.
//!
//! An item reference carries the bank index, item identity and version of a
//! served item through an untrusted client and back. It is a payload and its
//! authentication code, each in Base64, joined by a full stop; without the
//! code a client could claim any index and score against an item it was never
//! served.

use crate::crypto::{
    base64url, base64url_decode, base64url_encode, hmac_sha256, hmac_sha256_matches, hmac_sha256_of,
    law_base64url_has_no_full_stop, law_base64url_is_injective,
};
use crate::error::ServiceError;
use crate::text::chars_of;
use vstd::prelude::*;
use vstd::utf8::encode_utf8;

verus! {

/// What a reference asserts.
#[derive(Debug, PartialEq, Eq)]
pub struct ItemRefClaims {
    /// Session the item was issued to.
    pub session_id: String,
    /// Bank index of the item.
    pub bank_index: usize,
    /// Item identity.
    pub item_id: String,
    /// Item version, pinned at issue so recalibration cannot move it.
    pub challenge_version: u32,
    /// Issue time, epoch milliseconds.
    pub issued_at: u64,
}

impl Clone for ItemRefClaims {
    fn clone(&self) -> (r: Self)
        ensures
            r == *self,
    {
        ItemRefClaims {
            session_id: self.session_id.clone(),
            bank_index: self.bank_index,
            item_id: self.item_id.clone(),
            challenge_version: self.challenge_version,
            issued_at: self.issued_at,
        }
    }
}

/// The authentication code of an encoded payload, in Base64.
pub open spec fn seal(key: Seq<u8>, encoded: Seq<char>) -> Seq<char> {
    base64url(hmac_sha256_of(key, encode_utf8(encoded)))
}

/// The reference that carries a payload under a key.
pub open spec fn reference(key: Seq<u8>, payload: Seq<u8>) -> Seq<char> {
    base64url(payload).push('.') + seal(key, base64url(payload))
}

/// Whether the first full stop of a text is at a position.
pub open spec fn first_stop(text: Seq<char>, i: int) -> bool {
    &&& 0 <= i < text.len()
    &&& text[i] == '.'
    &&& forall|j: int| 0 <= j < i ==> text[j] != '.'
}

/// Whether some bytes are spelled by a text.
pub open spec fn is_base64url(text: Seq<char>) -> bool {
    exists|bytes: Seq<u8>| #[trigger] base64url(bytes) == text
}

/// Why a text, whose first full stop is at a position, is no reference under a
/// key.
pub open spec fn stop_refusal(key: Seq<u8>, text: Seq<char>, stop: int) -> Option<Seq<char>> {
    let encoded = text.take(stop);
    let signature = text.skip(stop + 1);
    if !is_base64url(signature) {
        Some("malformed signature"@)
    } else if signature != seal(key, encoded) {
        Some("signature mismatch"@)
    } else if !is_base64url(encoded) {
        Some("malformed payload"@)
    } else {
        None
    }
}

/// Whether a text is a reference under a key.
pub open spec fn is_reference(key: Seq<u8>, text: Seq<char>) -> bool {
    exists|payload: Seq<u8>| text == #[trigger] reference(key, payload)
}

/// Whether an error says why a text is no reference under a key.
pub open spec fn refuses(key: Seq<u8>, text: Seq<char>, error: ServiceError) -> bool {
    &&& !text.contains('.') ==> error.is_item_ref_invalid("malformed token"@)
    &&& forall|stop: int| #[trigger]
        first_stop(text, stop) ==> stop_refusal(key, text, stop) is Some && error.is_item_ref_invalid(
            stop_refusal(key, text, stop)->0,
        )
}

/// What verifying a text under a key gives: the payload it is the reference of, or
/// why it is none.
pub open spec fn verifies(key: Seq<u8>, text: Seq<char>, r: Result<Vec<u8>, ServiceError>) -> bool {
    match r {
        Ok(payload) => text == reference(key, payload@),
        Err(error) => !is_reference(key, text) && refuses(key, text, error),
    }
}

/// Mints and verifies item references.
pub struct ItemRefSigner {
    key: Vec<u8>,
}

impl View for ItemRefSigner {
    type V = Seq<u8>;

    closed spec fn view(&self) -> Seq<u8> {
        self.key@
    }
}

impl Clone for ItemRefSigner {
    fn clone(&self) -> (r: Self)
        ensures
            r@ == self@,
    {
        let mut key: Vec<u8> = Vec::new();
        for i in 0..self.key.len()
            invariant
                key@ == self.key@.take(i as int),
        {
            key.push(self.key[i]);
        }
        ItemRefSigner { key }
    }
}

proof fn lemma_reference_parts(key: Seq<u8>, payload: Seq<u8>)
    ensures
        first_stop(reference(key, payload), base64url(payload).len() as int),
        reference(key, payload).take(base64url(payload).len() as int) == base64url(payload),
        reference(key, payload).skip(base64url(payload).len() as int + 1) == seal(key, base64url(payload)),
{
    let encoded = base64url(payload);
    let text = reference(key, payload);
    let n = encoded.len() as int;
    law_base64url_has_no_full_stop(payload);
    assert(text[n] == '.');
    assert forall|j: int| 0 <= j < n implies text[j] != '.' by {
        assert(text[j] == encoded[j]);
    }
    assert(text.take(n) =~= encoded);
    assert(text.skip(n + 1) =~= seal(key, encoded));
}

proof fn lemma_first_stop_unique(text: Seq<char>, i: int, j: int)
    requires
        first_stop(text, i),
        first_stop(text, j),
    ensures
        i == j,
{
}

proof fn lemma_has_a_first_stop(text: Seq<char>)
    requires
        text.contains('.'),
    ensures
        exists|stop: int| #[trigger] first_stop(text, stop),
    decreases text.len(),
{
    let before = text.drop_last();
    if before.contains('.') {
        lemma_has_a_first_stop(before);
        let stop = choose|stop: int| #[trigger] first_stop(before, stop);
        assert forall|j: int| 0 <= j < stop implies text[j] != '.' by {
            assert(text[j] == before[j]);
        }
        assert(first_stop(text, stop));
    } else {
        let i = choose|i: int| 0 <= i < text.len() && text[i] == '.';
        assert forall|j: int| 0 <= j < i implies text[j] != '.' by {
            assert(before[j] == text[j]);
        }
        assert(first_stop(text, i));
    }
}

impl ItemRefSigner {
    /// Build a signer from a secret.
    pub fn new(key: Vec<u8>) -> (r: Self)
        ensures
            r@ == key@,
    {
        ItemRefSigner { key }
    }

    /// What a log may show of a signer: never its key.
    pub fn render(&self) -> (r: String)
        ensures
            r@ == "ItemRefSigner { key: \"<redacted>\" }"@,
    {
        "ItemRefSigner { key: \"<redacted>\" }".to_owned()
    }

    /// The authentication code of a message.
    pub fn mac(&self, message: &[u8]) -> (r: Vec<u8>)
        ensures
            r@ == hmac_sha256_of(self@, message@),
            r@.len() == 32,
    {
        hmac_sha256(self.key.as_slice(), message)
    }

    /// Sign a payload.
    pub fn sign(&self, payload: &[u8]) -> (token: String)
        ensures
            token@ == reference(self@, payload@),
    {
        let encoded = base64url_encode(payload);
        let code = self.mac(encoded.as_str().as_bytes());
        let signature = base64url_encode(code.as_slice());
        let mut token = encoded;
        token.push('.');
        token.append(signature.as_str());
        token
    }

    /// Verify a token and return its payload.
    ///
    /// Only proves the token was minted under this key and is intact. The caller
    /// must still check that it belongs to the right session and matches the
    /// item the bank actually last served.
    pub fn verify(&self, token: &str) -> (r: Result<Vec<u8>, ServiceError>)
        ensures
            verifies(self@, token@, r),
    {
        let chars = chars_of(token);
        let mut stop: usize = 0;
        while stop < chars.len() && chars[stop] != '.'
            invariant
                chars@ == token@,
                stop <= chars.len(),
                forall|j: int| 0 <= j < stop ==> token@[j] != '.',
            decreases chars.len() - stop,
        {
            stop += 1;
        }
        if stop == chars.len() {
            proof {
                assert forall|payload: Seq<u8>| token@ != #[trigger] reference(self@, payload) by {
                    lemma_reference_parts(self@, payload);
                    if token@ == reference(self@, payload) {
                        assert(token@[base64url(payload).len() as int] == '.');
                    }
                }
            }
            return Err(ServiceError::ItemRefInvalid("malformed token"));
        }
        let encoded = token.substring_char(0, stop);
        let signature = token.substring_char(stop + 1, chars.len());
        proof {
            assert(first_stop(token@, stop as int));
            assert(encoded@ =~= token@.take(stop as int));
            assert(signature@ =~= token@.skip(stop + 1));
            assert forall|other: int| #[trigger] first_stop(token@, other) implies other == stop by {
                lemma_first_stop_unique(token@, other, stop as int);
            }
            assert(token@.contains('.'));
            assert forall|payload: Seq<u8>| token@ == #[trigger] reference(self@, payload) implies encoded@
                == base64url(payload) && signature@ == seal(self@, encoded@) by {
                lemma_reference_parts(self@, payload);
            }
        }
        let code = match base64url_decode(signature) {
            Some(code) => code,
            None => {
                return Err(ServiceError::ItemRefInvalid("malformed signature"));
            },
        };
        assert(is_base64url(signature@));
        proof {
            if signature@ == seal(self@, encoded@) {
                law_base64url_is_injective(code@, hmac_sha256_of(self@, encode_utf8(encoded@)));
            }
        }
        if !hmac_sha256_matches(self.key.as_slice(), encoded.as_bytes(), code.as_slice()) {
            return Err(ServiceError::ItemRefInvalid("signature mismatch"));
        }
        match base64url_decode(encoded) {
            Some(payload) => {
                assert(token@ =~= encoded@.push('.') + signature@);
                Ok(payload)
            },
            None => Err(ServiceError::ItemRefInvalid("malformed payload")),
        }
    }
}

/// The claims a payload was read as; a payload that spells none is refused.
pub fn read_claims(decoded: &Option<ItemRefClaims>) -> (r: Result<&ItemRefClaims, ServiceError>)
    ensures
        match decoded {
            Some(claims) => r matches Ok(read) && *read == *claims,
            None => r is Err && r->Err_0.is_item_ref_invalid("unreadable claims"@),
        },
{
    match decoded {
        Some(claims) => Ok(claims),
        None => Err(ServiceError::ItemRefInvalid("unreadable claims")),
    }
}

/// What is signed can be read back: no two payloads share a reference, so the
/// payload a reference verifies to is the one that was signed.
pub proof fn law_a_reference_carries_one_payload(key: Seq<u8>, a: Seq<u8>, b: Seq<u8>)
    requires
        reference(key, a) == reference(key, b),
    ensures
        a == b,
{
    lemma_reference_parts(key, a);
    lemma_reference_parts(key, b);
    lemma_first_stop_unique(
        reference(key, a),
        base64url(a).len() as int,
        base64url(b).len() as int,
    );
    law_base64url_is_injective(a, b);
}

/// Whatever is no reference is refused as an invalid one: there is no other error.
pub proof fn law_a_refusal_is_an_invalid_reference(key: Seq<u8>, text: Seq<char>, error: ServiceError)
    requires
        refuses(key, text, error),
    ensures
        error is ItemRefInvalid,
{
    if text.contains('.') {
        lemma_has_a_first_stop(text);
    }
}

/// What is signed reads back, and only so. Under its own key a reference verifies to
/// the payload it was signed for. Put before the code of another payload, or under
/// another key, a payload is accepted only where both have one authentication code;
/// what is accepted is that payload.
pub proof fn law_a_signed_reference_reads_back(
    key: Seq<u8>,
    payload: Seq<u8>,
    other_key: Seq<u8>,
    other_payload: Seq<u8>,
    own: Result<Vec<u8>, ServiceError>,
    tampered: Result<Vec<u8>, ServiceError>,
    foreign: Result<Vec<u8>, ServiceError>,
)
    requires
        verifies(key, reference(key, payload), own),
        verifies(
            key,
            base64url(other_payload).push('.') + seal(key, base64url(payload)),
            tampered,
        ),
        verifies(other_key, reference(key, payload), foreign),
    ensures
        own matches Ok(read) && read@ == payload,
        match tampered {
            Ok(read) => read@ == other_payload && hmac_sha256_of(
                key,
                encode_utf8(base64url(other_payload)),
            ) == hmac_sha256_of(key, encode_utf8(base64url(payload))),
            Err(error) => error is ItemRefInvalid,
        },
        match foreign {
            Ok(read) => read@ == payload && hmac_sha256_of(
                other_key,
                encode_utf8(base64url(payload)),
            ) == hmac_sha256_of(key, encode_utf8(base64url(payload))),
            Err(error) => error is ItemRefInvalid,
        },
{
    lemma_reference_parts(key, payload);
    match own {
        Ok(read) => {
            law_a_reference_carries_one_payload(key, payload, read@);
        },
        Err(_) => {},
    }
    match foreign {
        Ok(read) => {
            law_a_reference_is_bound_to_its_key(key, other_key, payload, read@);
        },
        Err(_) => {
            assert(first_stop(reference(key, payload), base64url(payload).len() as int));
        },
    }
    let text = base64url(other_payload).push('.') + seal(key, base64url(payload));
    let stop = base64url(other_payload).len() as int;
    law_base64url_has_no_full_stop(other_payload);
    assert(text[stop] == '.');
    assert forall|j: int| 0 <= j < stop implies text[j] != '.' by {
        assert(text[j] == base64url(other_payload)[j]);
    }
    assert(first_stop(text, stop));
    assert(text.take(stop) =~= base64url(other_payload));
    assert(text.skip(stop + 1) =~= seal(key, base64url(payload)));
    match tampered {
        Ok(read) => {
            lemma_reference_parts(key, read@);
            lemma_first_stop_unique(text, stop, base64url(read@).len() as int);
            law_base64url_is_injective(other_payload, read@);
            law_base64url_is_injective(
                hmac_sha256_of(key, encode_utf8(base64url(other_payload))),
                hmac_sha256_of(key, encode_utf8(base64url(payload))),
            );
        },
        Err(_) => {},
    }
}

/// A reference is bound to its key: it is accepted under another key only if
/// both keys give its payload the same authentication code.
pub proof fn law_a_reference_is_bound_to_its_key(key: Seq<u8>, other: Seq<u8>, a: Seq<u8>, b: Seq<u8>)
    requires
        reference(key, a) == reference(other, b),
    ensures
        a == b,
        hmac_sha256_of(key, encode_utf8(base64url(a))) == hmac_sha256_of(
            other,
            encode_utf8(base64url(a)),
        ),
{
    lemma_reference_parts(key, a);
    lemma_reference_parts(other, b);
    lemma_first_stop_unique(
        reference(key, a),
        base64url(a).len() as int,
        base64url(b).len() as int,
    );
    law_base64url_is_injective(a, b);
    law_base64url_is_injective(
        hmac_sha256_of(key, encode_utf8(base64url(a))),
        hmac_sha256_of(other, encode_utf8(base64url(a))),
    );
}


/// What is not refused is a reference that the key signed: the part behind the first stop is the seal
/// of the part in front of it, and that part is a payload.
pub proof fn law_only_what_the_key_signed_is_not_refused(key: Seq<u8>, text: Seq<char>, stop: int)
    requires
        first_stop(text, stop),
    ensures
        stop_refusal(key, text, stop) is None ==> is_reference(key, text) && text.skip(stop + 1) == seal(
            key,
            text.take(stop),
        ),
        text.skip(stop + 1) != seal(key, text.take(stop)) ==> stop_refusal(key, text, stop) is Some,
{
    if stop_refusal(key, text, stop) is None {
        let encoded = text.take(stop);
        let payload = choose|bytes: Seq<u8>| #[trigger] base64url(bytes) == encoded;
        assert(text =~= encoded.push('.') + text.skip(stop + 1));
        assert(text == reference(key, payload));
    }
}

}
