//! What the library has from other crates: decoding of UTF-16 text, parsing
//! of timestamps and matching of regular expressions. The contracts in this
//! file are taken on trust; each names the result of one outside
//! computation as a function of its arguments.

use encoding::Encoding;
use vstd::prelude::*;

verus! {

/// The text that the `encoding` crate decodes from little-endian UTF-16
/// bytes when invalid sequences are skipped.
pub uninterp spec fn utf16le_text(bytes: Seq<u8>) -> Seq<char>;

/// `encoding::Encoding::decode` of `encoding::all::UTF_16LE` with
/// `DecoderTrap::Ignore`: the decoded text, which depends on the bytes
/// alone. With this trap the decoder passes over what it cannot decode and
/// reports no error.
#[verifier::external_body]
pub(crate) fn decode_utf16(buf: &[u8]) -> (r: String)
    ensures
        r@ == utf16le_text(buf@),
{
    encoding::all::UTF_16LE.decode(buf, encoding::DecoderTrap::Ignore).unwrap_or_default()
}

/// The seconds since 1970-01-01 00:00:00 of the date and time that `chrono`
/// parses from `text` by the format `format`, read without a time zone,
/// where it parses.
pub uninterp spec fn timestamp_of(text: Seq<char>, format: Seq<char>) -> Option<i64>;

/// `chrono::NaiveDateTime::parse_from_str` followed by `and_utc` and
/// `timestamp`: the parsed date and time as seconds, which depends on the
/// text and the format alone, or nothing where the text does not parse.
#[verifier::external_body]
pub(crate) fn parse_timestamp(text: &str, format: &str) -> (r: Option<i64>)
    ensures
        r == timestamp_of(text@, format@),
{
    chrono::NaiveDateTime::parse_from_str(text, format).ok().map(|at| at.and_utc().timestamp())
}

/// The capture groups of the first match of the regular expression
/// `pattern` in `text`, the whole match first, each group with the text it
/// matched where it took part in the match; nothing where the pattern
/// does not compile or does not match.
pub uninterp spec fn regex_groups(pattern: Seq<char>, text: Seq<char>) -> Option<Seq<Option<Seq<char>>>>;

/// The model of a list of capture groups.
pub open spec fn groups_view(groups: Option<Vec<Option<String>>>) -> Option<Seq<Option<Seq<char>>>> {
    match groups {
        Some(list) => Some(
            Seq::new(
                list@.len(),
                |i: int|
                    match list@[i] {
                        Some(text) => Some(text@),
                        None => None,
                    },
            ),
        ),
        None => None,
    }
}

/// `regex::Regex::new` followed by `regex::Regex::captures`: the capture
/// groups of the first match, which depend on the pattern and the text
/// alone.
#[verifier::external_body]
pub(crate) fn captures(pattern: &str, text: &str) -> (r: Option<Vec<Option<String>>>)
    ensures
        groups_view(r) == regex_groups(pattern@, text@),
{
    let regex = regex::Regex::new(pattern).ok()?;
    let found = regex.captures(text)?;
    Some(found.iter().map(|group| group.map(|part| part.as_str().to_string())).collect())
}

} // verus!
