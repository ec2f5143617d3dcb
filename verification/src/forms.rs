use vstd::prelude::*;
use vstd::utf8::*;
use crate::structures::opt_string_view;

verus! {

/// What `url::Url::parse` makes of `text`: the serialization of the parsed
/// URL, or `None` where the text is no URL.
pub uninterp spec fn url_serialization(text: Seq<char>) -> Option<Seq<char>>;

/// What chrono makes of `text` read as an RFC 3339 timestamp: the same
/// instant written in UTC, or `None` where the text is no timestamp.
pub uninterp spec fn timestamp_serialization(text: Seq<char>) -> Option<Seq<char>>;

/// A link is canonical when parsing it as a URL gives back the same text.
pub open spec fn is_canonical_link(text: Seq<char>) -> bool {
    url_serialization(text) == Some(text)
}

/// A timestamp is canonical when reading it and writing it in UTC gives back
/// the same text.
pub open spec fn is_canonical_timestamp(text: Seq<char>) -> bool {
    timestamp_serialization(text) == Some(text)
}

/// Calls `url::Url::parse` and hands out the parsed URL's serialization
/// (`String::from(Url)`, the text that `Url::as_str` shows). Trusted: the
/// result is the value that `url_serialization` names; nothing more is
/// claimed of it.
#[verifier::external_body]
pub(crate) fn parse_url(text: &str) -> (r: Option<String>)
    ensures
        opt_string_view(r) == url_serialization(text@),
{
    match url::Url::parse(text) {
        Ok(parsed) => Some(String::from(parsed)),
        Err(_) => None,
    }
}

/// Calls chrono's `FromStr` for `DateTime<FixedOffset>` and writes the
/// instant back with `DateTime::to_rfc3339_opts` in UTC, with `Z` and as many
/// fractional digits as the instant needs. Trusted: the result is the value
/// that `timestamp_serialization` names; nothing more is claimed of it.
#[verifier::external_body]
pub(crate) fn parse_timestamp(text: &str) -> (r: Option<String>)
    ensures
        opt_string_view(r) == timestamp_serialization(text@),
{
    match text.parse::<chrono::DateTime<chrono::FixedOffset>>() {
        Ok(instant) => Some(
            instant.with_timezone(&chrono::Utc).to_rfc3339_opts(chrono::SecondsFormat::AutoSi, true),
        ),
        Err(_) => None,
    }
}

/// Calls `String::from_utf8`. Trusted: it succeeds exactly on well-formed
/// UTF-8, and the string then holds the characters that the bytes encode.
#[verifier::external_body]
pub(crate) fn string_from_utf8(bytes: Vec<u8>) -> (r: Option<String>)
    ensures
        r is Some <==> valid_utf8(bytes@),
        r matches Some(text) ==> text@ == decode_utf8(bytes@),
{
    match String::from_utf8(bytes) {
        Ok(text) => Some(text),
        Err(_) => None,
    }
}

/// Whether `text` is a link in canonical form.
pub fn link_is_canonical(text: &str) -> (ok: bool)
    ensures
        ok == is_canonical_link(text@),
{
    match parse_url(text) {
        Some(parsed) => {
            let same = str_eq(parsed.as_str(), text);
            same
        },
        None => false,
    }
}

/// Whether `text` is a timestamp in canonical form.
pub fn timestamp_is_canonical(text: &str) -> (ok: bool)
    ensures
        ok == is_canonical_timestamp(text@),
{
    match parse_timestamp(text) {
        Some(parsed) => {
            let same = str_eq(parsed.as_str(), text);
            same
        },
        None => false,
    }
}

/// Whether two strings hold the same characters.
pub fn str_eq(a: &str, b: &str) -> (same: bool)
    ensures
        same == (a@ == b@),
{
    let x = a.as_bytes();
    let y = b.as_bytes();
    proof {
        encode_utf8_decode_utf8(a@);
        encode_utf8_decode_utf8(b@);
    }
    if x.len() != y.len() {
        return false;
    }
    let mut i: usize = 0;
    while i < x.len()
        invariant
            0 <= i <= x@.len(),
            x@.len() == y@.len(),
            x@ == encode_utf8(a@),
            y@ == encode_utf8(b@),
            forall|j: int| 0 <= j < i ==> x@[j] == y@[j],
        decreases x@.len() - i,
    {
        if x[i] != y[i] {
            assert(x@[i as int] != y@[i as int]);
            return false;
        }
        i = i + 1;
    }
    assert(x@ =~= y@);
    true
}

} // verus!
