use vstd::prelude::*;
use vstd::utf8::decode_utf8;
use vstd::utf8::valid_utf8;
use chrono::DateTime;
use regex::Regex;

verus! {

/// The text that std's `String::from_utf8_lossy` makes of a sequence of
/// bytes: the bytes decoded as UTF-8, with U+FFFD in place of whatever is
/// not valid UTF-8.
pub uninterp spec fn lossy_text(bytes: Seq<u8>) -> Seq<char>;

/// The number of capture groups of a pattern, as `Regex::captures_len` of
/// the regex crate counts them: every group of the pattern and, before
/// them, the group that stands for the whole match. `None` for a pattern
/// that `Regex::new` does not accept.
pub uninterp spec fn group_count(pattern: Seq<char>) -> Option<nat>;

/// What `Regex::captures` of the regex crate finds of a pattern in a text:
/// `None` where the pattern matches nowhere; else, for the leftmost match,
/// the text of the capture group with the given index, or `None` where that
/// group took no part in the match.
pub uninterp spec fn captured(pattern: Seq<char>, text: Seq<char>, group: nat) -> Option<
    Option<Seq<char>>,
>;

/// The seconds since the Unix epoch, in UTC, of the moment that a text
/// writes in a given format, as chrono's `DateTime::parse_from_str` reads it
/// and `DateTime::timestamp` counts it. `None` where the text does not fit
/// the format.
pub uninterp spec fn formatted_seconds(text: Seq<char>, format: Seq<char>) -> Option<i64>;

/// What was found of a capture group, as plain text.
pub open spec fn capture_text(found: Option<Option<String>>) -> Option<Option<Seq<char>>> {
    match found {
        None => None,
        Some(None) => Some(None),
        Some(Some(text)) => Some(Some(text@)),
    }
}

/// `String::from_utf8_lossy`. It never fails; bytes that are valid UTF-8
/// come out as the text that they encode.
#[verifier::external_body]
pub(crate) fn decode_lossy(bytes: &[u8]) -> (text: String)
    ensures
        text@ == lossy_text(bytes@),
        valid_utf8(bytes@) ==> text@ == decode_utf8(bytes@),
{
    String::from_utf8_lossy(bytes).into_owned()
}

/// `Regex::new`, then `Regex::captures_len`, which counts at least the
/// group that stands for the whole match.
#[verifier::external_body]
pub(crate) fn count_groups(pattern: &str) -> (count: Option<usize>)
    ensures
        match count {
            Some(n) => n > 0 && group_count(pattern@) == Some(n as nat),
            None => group_count(pattern@) is None,
        },
{
    Regex::new(pattern).ok().map(|regex| regex.captures_len())
}

/// `Regex::new`, then `Regex::captures` and `Captures::get`. The pattern
/// has to be one that `Regex::new` accepts.
#[verifier::external_body]
pub(crate) fn capture(pattern: &str, text: &str, group: usize) -> (found: Option<Option<String>>)
    requires
        group_count(pattern@) is Some,
    ensures
        capture_text(found) == captured(pattern@, text@, group as nat),
{
    let regex = Regex::new(pattern).ok()?;
    regex.captures(text).map(|groups| groups.get(group).map(|hit| hit.as_str().to_owned()))
}

/// `DateTime::parse_from_str`, then `DateTime::timestamp`.
#[verifier::external_body]
pub(crate) fn parse_seconds(text: &str, format: &str) -> (seconds: Option<i64>)
    ensures
        seconds == formatted_seconds(text@, format@),
{
    DateTime::parse_from_str(text, format).ok().map(|moment| moment.timestamp())
}

} // verus!
