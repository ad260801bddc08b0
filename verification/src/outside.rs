//! The calls into other crates: regular expressions, base64 and JSON. What
//! stands here is believed, not proved; each item says what it claims.

use base64::engine::general_purpose::STANDARD;
use base64::Engine;
use regex_lite::Regex;
use vstd::prelude::*;

verus! {

/// Longest input, in bytes, that is handed to the base64 encoder.
pub const MAX_ENCODED_BYTES: usize = 0x1000_0000;

/// Whether `c` has a meaning of its own in a regular expression.
pub open spec fn is_meta(c: char) -> bool {
    c == '\\' || c == '.' || c == '+' || c == '*' || c == '?' || c == '(' || c == ')' || c == '|'
        || c == '[' || c == ']' || c == '{' || c == '}' || c == '^' || c == '$' || c == '#' || c
        == '&' || c == '-' || c == '~'
}

/// `text` with a backslash before each character that has a meaning of its own
/// in a regular expression.
pub open spec fn escaped(text: Seq<char>) -> Seq<char>
    decreases text.len(),
{
    if text.len() == 0 {
        Seq::empty()
    } else if is_meta(text.last()) {
        escaped(text.drop_last()).push('\\').push(text.last())
    } else {
        escaped(text.drop_last()).push(text.last())
    }
}

/// `regex_lite::escape` puts a backslash before each of its meta characters and
/// leaves every other character as it is.
pub assume_specification[ regex_lite::escape ](pattern: &str) -> (out: String)
    ensures
        out@ == escaped(pattern@),
;

/// What `Regex::new` says against a pattern; `None` where it compiles.
pub uninterp spec fn regex_error(pattern: Seq<char>) -> Option<Seq<char>>;

/// Whether the compiled pattern matches somewhere in a text (`Regex::is_match`).
pub uninterp spec fn regex_accepts(pattern: Seq<char>, text: Seq<char>) -> bool;

/// The first three groups of the leftmost match of a pattern in a text
/// (`Regex::captures`); `None` where the pattern does not compile, where it
/// does not match, or where one of the groups is absent.
pub uninterp spec fn regex_groups(pattern: Seq<char>, text: Seq<char>) -> Option<
    (Seq<char>, Seq<char>, Seq<char>),
>;

/// Compiles a pattern with `Regex::new` and returns the text of its error, if
/// there is one. Whether a pattern compiles, and what is said where it does
/// not, depends on the pattern alone.
#[verifier::external_body]
pub(crate) fn regex_problem(pattern: &str) -> (problem: Option<String>)
    ensures
        match problem {
            Some(text) => regex_error(pattern@) == Some(text@),
            None => regex_error(pattern@) is None,
        },
{
    Regex::new(pattern).err().map(|error| error.to_string())
}

/// Compiles a pattern with `Regex::new` and applies `Regex::is_match`: `None`
/// where the pattern does not compile, else whether it matches in the text,
/// which depends on the pattern and the text alone.
#[verifier::external_body]
pub(crate) fn regex_is_match(pattern: &str, text: &str) -> (found: Option<bool>)
    ensures
        match found {
            Some(accepted) => regex_error(pattern@) is None && accepted == regex_accepts(
                pattern@,
                text@,
            ),
            None => regex_error(pattern@) is Some,
        },
{
    Regex::new(pattern).ok().map(|regex| regex.is_match(text))
}

/// Compiles a pattern with `Regex::new`, applies `Regex::captures` and hands
/// out groups one to three, which depend on the pattern and the text alone.
#[verifier::external_body]
pub(crate) fn regex_captures(pattern: &str, text: &str) -> (groups: Option<
    (String, String, String),
>)
    ensures
        match groups {
            Some(found) => regex_groups(pattern@, text@) == Some((found.0@, found.1@, found.2@)),
            None => regex_groups(pattern@, text@) is None,
        },
{
    let regex = Regex::new(pattern).ok()?;
    let found = regex.captures(text)?;
    Some((
        found.get(1)?.as_str().to_owned(),
        found.get(2)?.as_str().to_owned(),
        found.get(3)?.as_str().to_owned(),
    ))
}

/// The standard base64 text of bytes, padding included.
pub uninterp spec fn base64_text(bytes: Seq<u8>) -> Seq<char>;

/// The bytes that a standard base64 text stands for, or what the decoder says
/// against the text.
pub uninterp spec fn base64_bytes(text: Seq<char>) -> Result<Seq<u8>, Seq<char>>;

/// Encodes bytes with base64's `STANDARD` engine. The text depends on the bytes
/// alone, and decoding it gives the bytes back.
#[verifier::external_body]
pub(crate) fn base64_encode(bytes: &[u8]) -> (text: String)
    requires
        bytes@.len() <= MAX_ENCODED_BYTES,
    ensures
        text@ == base64_text(bytes@),
        base64_bytes(text@) is Ok && base64_bytes(text@)->Ok_0 == bytes@,
{
    STANDARD.encode(bytes)
}

/// Decodes text with base64's `STANDARD` engine. The bytes, or the text of the
/// error, depend on the text alone.
#[verifier::external_body]
pub(crate) fn base64_decode(text: &str) -> (bytes: Result<Vec<u8>, String>)
    ensures
        match bytes {
            Ok(decoded) => base64_bytes(text@) is Ok && base64_bytes(text@)->Ok_0 == decoded@,
            Err(error) => base64_bytes(text@) is Err && base64_bytes(text@)->Err_0 == error@,
        },
{
    STANDARD.decode(text).map_err(|error| error.to_string())
}

/// The string that a JSON text holds under a key of its top-level object;
/// `None` where the text is not JSON, not an object, or holds no string there.
pub uninterp spec fn json_string(json: Seq<u8>, key: Seq<char>) -> Option<Seq<char>>;

/// Reads JSON with `serde_json::from_slice` and hands out the string under a
/// key of its top-level object, which depends on the bytes and the key alone.
#[verifier::external_body]
pub(crate) fn json_string_field(json: &[u8], key: &str) -> (value: Option<String>)
    ensures
        match value {
            Some(text) => json_string(json@, key@) == Some(text@),
            None => json_string(json@, key@) is None,
        },
{
    let value = serde_json::from_slice::<serde_json::Value>(json).ok()?;
    Some(value.get(key)?.as_str()?.to_owned())
}

} // verus!
