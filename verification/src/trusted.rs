//! Calls into std functions and outside crates whose contracts are assumed
//! rather than proved.  Each item states what the called function's
//! documentation or source promises, and nothing more.

use vstd::prelude::*;
use crate::model::opt_view;
use vstd::utf8::{decode_utf8, valid_utf8};

verus! {

/// `String::push` appends one character to the end of the string.
pub assume_specification[ String::push ](s: &mut String, ch: char)
    ensures
        final(s)@ == old(s)@.push(ch),
;

/// Whether `char::is_alphanumeric` holds of a character (the Unicode
/// `Alphabetic` or `Numeric` properties).
pub uninterp spec fn spec_is_alphanumeric(c: char) -> bool;

/// An ASCII letter or digit.
pub open spec fn is_ascii_alphanumeric(c: char) -> bool {
    let u = c as u32;
    ||| 0x30 <= u <= 0x39
    ||| 0x41 <= u <= 0x5a
    ||| 0x61 <= u <= 0x7a
}

/// The ASCII lower case of a character: `A`..`Z` become `a`..`z`, every
/// other character stays.
pub open spec fn ascii_lower(c: char) -> char {
    let u = c as u32;
    if 0x41 <= u <= 0x5a {
        (u + 32) as char
    } else {
        c
    }
}

/// Calls `char::is_alphanumeric`.  The Unicode tables behind it are not
/// written out: the contract names the result, and states it for ASCII
/// characters, where the documented `Alphabetic` and `Numeric` properties
/// hold exactly of the letters and the digits.
#[verifier::external_body]
pub(crate) fn is_alphanumeric(c: char) -> (r: bool)
    ensures
        r == spec_is_alphanumeric(c),
        (c as u32) < 128 ==> (r <==> is_ascii_alphanumeric(c)),
{
    c.is_alphanumeric()
}

/// What `str::to_lowercase` returns for a string.
pub uninterp spec fn spec_to_lowercase(s: Seq<char>) -> Seq<char>;

/// Calls `str::to_lowercase`.  Unicode case mapping (including the
/// context-dependent final sigma) is not written out: the contract names the
/// result as a function of the input characters, and states it for ASCII
/// text, where each letter is mapped to its lower case on its own.
#[verifier::external_body]
pub(crate) fn to_lowercase(s: &str) -> (r: String)
    ensures
        r@ == spec_to_lowercase(s@),
        (forall|i: int| 0 <= i < s@.len() ==> (#[trigger] s@[i] as u32) < 128) ==> r@ == s@.map_values(
            |c: char| ascii_lower(c),
        ),
{
    s.to_lowercase()
}

/// What `String::from_utf8_lossy` decodes a byte sequence to.
pub uninterp spec fn spec_utf8_lossy(bytes: Seq<u8>) -> Seq<char>;

/// Calls `String::from_utf8_lossy` and takes ownership of the text.  Bytes
/// that are valid UTF-8 are decoded as they are (the documented borrowed
/// case); the replacement of invalid sequences is not written out, the
/// contract only names that result as a function of the bytes.
#[verifier::external_body]
pub(crate) fn utf8_lossy(bytes: &[u8]) -> (r: String)
    ensures
        r@ == spec_utf8_lossy(bytes@),
        valid_utf8(bytes@) ==> r@ == decode_utf8(bytes@),
{
    String::from_utf8_lossy(bytes).into_owned()
}

/// `serde_json::Value`, a parsed JSON document; opaque to the library.
#[verifier::external_type_specification]
#[verifier::external_body]
pub struct ExJsonValue(serde_json::Value);

/// `serde_json::Error`, the error of a JSON parse; opaque to the library.
#[verifier::external_type_specification]
#[verifier::external_body]
pub struct ExJsonError(serde_json::Error);

/// What parsing `data` as JSON and reading the string at
/// `json[first][index][second][third]` gives: `None` when `data` is not
/// JSON, `Some(None)` when that place is missing or holds no string,
/// `Some(Some(text))` otherwise.
pub uninterp spec fn spec_string_at(
    data: Seq<char>,
    first: Seq<char>,
    index: nat,
    second: Seq<char>,
    third: Seq<char>,
) -> Option<Option<Seq<char>>>;

/// Calls `serde_json::from_str::<serde_json::Value>` on `data`, then reads
/// `json[first][index][second][third]` with `Value`'s indexing (which gives
/// `Null`, never a panic, for a missing key or index) and `Value::as_str`.
/// The JSON grammar is not written out: the contract names the outcome as a
/// function of the text and the path, and says nothing of the error's
/// message.
#[verifier::external_body]
pub(crate) fn string_at(
    data: &str,
    first: &str,
    index: usize,
    second: &str,
    third: &str,
) -> (r: Result<Option<String>, serde_json::Error>)
    ensures
        match r {
            Ok(content) => spec_string_at(data@, first@, index as nat, second@, third@) == Some(
                opt_view(content),
            ),
            Err(_) => spec_string_at(data@, first@, index as nat, second@, third@) is None,
        },
{
    match serde_json::from_str::<serde_json::Value>(data) {
        Ok(json) => match json[first][index][second][third].as_str() {
            Some(content) => Ok(Some(content.to_string())),
            None => Ok(None),
        },
        Err(e) => Err(e),
    }
}

} // verus!
