//! Which browser origins may call the service.

use crate::text::{same, split, split_text, texts_of, trim, trim_text};
use vstd::prelude::*;

verus! {

/// Header carrying the authenticated player.
pub const PLAYER_HEADER: &'static str = "x-hcr-player";

/// Header carrying the player's display name. Purely cosmetic.
pub const PLAYER_NAME_HEADER: &'static str = "x-hcr-player-name";

/// Request headers used by the browser clients. A header missing here makes the
/// browser reject the preflight before a submission can reach the service.
pub const CORS_ALLOW_HEADERS: &'static str =
    "Content-Type, Authorization, X-HCR-Player, X-HCR-Player-Name, X-HCR-Research-Program-And-Scores, X-HCR-Research-Language-Consent, X-HCR-Research-Utc-Offset-Consent, X-HCR-Research-Language, X-HCR-Research-Utc-Offset-Minutes";

/// Whether an origin is on a comma-separated list, each entry taken without
/// surrounding white space and empty entries passed over.
pub open spec fn on_list(configured: Seq<char>, origin: Seq<char>) -> bool {
    &&& origin.len() > 0
    &&& exists|i: int|
        0 <= i < split_text(configured, ',').len() && trim_text(
            #[trigger] split_text(configured, ',')[i],
        ) == origin
}

/// Pick the allowed origin to echo, if the caller's origin is one of them.
///
/// The request's origin is echoed rather than the configuration reflected back
/// verbatim: the reply header has to name the caller, and a list is not a legal
/// value.
pub fn matching_origin<'a>(configured: Option<&'a str>, request_origin: Option<&str>) -> (r: Option<
    &'a str,
>)
    ensures
        match r {
            Some(allowed) => configured is Some && request_origin is Some && on_list(
                configured->0@,
                request_origin->0@,
            ) && allowed@ == request_origin->0@,
            None => configured is Some && request_origin is Some ==> !on_list(
                configured->0@,
                request_origin->0@,
            ),
        },
{
    let list = match configured {
        Some(list) => list,
        None => {
            return None;
        },
    };
    let origin = match request_origin {
        Some(origin) => origin,
        None => {
            return None;
        },
    };
    let entries = split(list, ',');
    let ghost pieces = split_text(list@, ',');
    for i in 0..entries.len()
        invariant
            texts_of(entries@) == pieces,
            pieces == split_text(list@, ','),
            configured == Some(list),
            request_origin == Some(origin),
            forall|j: int|
                0 <= j < i ==> trim_text(#[trigger] pieces[j]).len() == 0 || trim_text(pieces[j])
                    != origin@,
    {
        let allowed = trim(entries[i]);
        assert(texts_of(entries@)[i as int] == entries@[i as int]@);
        if !allowed.is_empty() && same(allowed, origin) {
            assert(trim_text(pieces[i as int]) == origin@);
            return Some(allowed);
        }
    }
    None
}

/// The headers of a reply to an allowed origin. It varies by origin, so a shared
/// cache must not serve one front end's reply to another. Without one there are
/// none.
pub open spec fn cors_headers_of(allow_origin: Option<Seq<char>>) -> Seq<(Seq<char>, Seq<char>)> {
    match allow_origin {
        None => Seq::empty(),
        Some(origin) => seq![
            ("Access-Control-Allow-Origin"@, origin),
            ("Access-Control-Allow-Methods"@, "GET, POST, OPTIONS"@),
            ("Access-Control-Allow-Headers"@, CORS_ALLOW_HEADERS@),
            ("Vary"@, "Origin"@),
        ],
    }
}

/// Headers, by value.
pub open spec fn headers_view(headers: Seq<(&str, &str)>) -> Seq<(Seq<char>, Seq<char>)> {
    Seq::new(headers.len(), |i: int| (headers[i].0@, headers[i].1@))
}

/// The headers of a reply to an allowed origin.
pub fn cors_headers<'a>(allow_origin: Option<&'a str>) -> (r: Vec<(&'a str, &'a str)>)
    ensures
        headers_view(r@) == cors_headers_of(
            match allow_origin {
                Some(origin) => Some(origin@),
                None => None,
            },
        ),
{
    let mut headers: Vec<(&'a str, &'a str)> = Vec::new();
    match allow_origin {
        None => {
            assert(headers_view(headers@) =~= cors_headers_of(None));
        },
        Some(origin) => {
            headers.push(("Access-Control-Allow-Origin", origin));
            headers.push(("Access-Control-Allow-Methods", "GET, POST, OPTIONS"));
            headers.push(("Access-Control-Allow-Headers", CORS_ALLOW_HEADERS));
            headers.push(("Vary", "Origin"));
            assert(headers_view(headers@) =~= cors_headers_of(Some(origin@)));
        },
    }
    headers
}


/// An origin is on the list wherever its entry stands on it and whatever white space surrounds the
/// entry, and an origin that no entry names is not on it; an empty origin never is.
pub proof fn law_every_entry_of_the_list_counts(configured: Seq<char>, origin: Seq<char>, i: int)
    requires
        0 <= i < split_text(configured, ',').len(),
    ensures
        origin.len() > 0 && trim_text(split_text(configured, ',')[i]) == origin ==> on_list(
            configured,
            origin,
        ),
        (forall|j: int|
            0 <= j < split_text(configured, ',').len() ==> trim_text(
                #[trigger] split_text(configured, ',')[j],
            ) != origin) ==> !on_list(configured, origin),
        !on_list(configured, Seq::empty()),
{
}

/// A reply to an allowed origin names that origin and is marked as varying by it; a reply to any
/// other says nothing about origins.
pub proof fn law_a_reply_names_the_allowed_origin(origin: Seq<char>)
    ensures
        cors_headers_of(None).len() == 0,
        cors_headers_of(Some(origin)).contains(("Access-Control-Allow-Origin"@, origin)),
        cors_headers_of(Some(origin)).contains(("Vary"@, "Origin"@)),
{
    assert(cors_headers_of(Some(origin))[0] == ("Access-Control-Allow-Origin"@, origin));
    assert(cors_headers_of(Some(origin))[3] == ("Vary"@, "Origin"@));
}

}
