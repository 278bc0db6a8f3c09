//! What a resolved value reads as: text, where its bytes are valid UTF-8, and
//! a switch, where the text is one of ten words.

use vstd::prelude::*;
use vstd::string::*;
use vstd::utf8::*;
use crate::bytes::{optional, same_bytes};

verus! {

/// The error of `core::str::from_utf8`, carried through and never read.
#[verifier::external_type_specification]
#[verifier::external_body]
pub struct ExUtf8Error(core::str::Utf8Error);

/// `core::str::from_utf8` succeeds exactly on the byte strings that are valid
/// UTF-8, and the string slice it then returns is made of the very bytes it
/// was given.
pub assume_specification[ core::str::from_utf8 ](v: &[u8]) -> (r: Result<
    &str,
    core::str::Utf8Error,
>)
    ensures
        r is Ok <==> valid_utf8(v@),
        r matches Ok(s) ==> s.spec_bytes() == v@,
;

/// The text that a byte string encodes, where it encodes one.
pub open spec fn text_of(bytes: Seq<u8>) -> Option<Seq<char>> {
    if valid_utf8(bytes) {
        Some(decode_utf8(bytes))
    } else {
        None
    }
}

/// The text of a resolved value: none where the name is absent, and none
/// where the value is no valid UTF-8.
pub open spec fn as_text(value: Option<Seq<u8>>) -> Option<Seq<char>> {
    match value {
        Some(bytes) => text_of(bytes),
        None => None,
    }
}

/// Whether a text is one of the words that switch off.
pub open spec fn says_off(text: Seq<char>) -> bool {
    text == "off"@ || text == "OFF"@ || text == "FALSE"@ || text == "false"@ || text == "0"@
}

/// Whether a text is one of the words that switch on.
pub open spec fn says_on(text: Seq<char>) -> bool {
    text == "on"@ || text == "ON"@ || text == "TRUE"@ || text == "true"@ || text == "1"@
}

/// The switch that a text stands for, where it is one of the ten words.
pub open spec fn flag_of(text: Seq<char>) -> Option<bool> {
    if says_off(text) {
        Some(false)
    } else if says_on(text) {
        Some(true)
    } else {
        None
    }
}

/// The switch of a resolved text: none where there is no text.
pub open spec fn as_flag(text: Option<Seq<char>>) -> Option<bool> {
    match text {
        Some(text) => flag_of(text),
        None => None,
    }
}

/// The model of an optional string.
pub open spec fn optional_text(text: Option<String>) -> Option<Seq<char>> {
    match text {
        Some(text) => Some(text@),
        None => None,
    }
}

/// Decodes a byte string as UTF-8 text.
pub fn decode(bytes: &[u8]) -> (text: Option<String>)
    ensures
        optional_text(text) == text_of(bytes@),
{
    match core::str::from_utf8(bytes) {
        Ok(s) => {
            proof {
                encode_utf8_decode_utf8(s@);
            }
            Some(s.to_owned())
        },
        Err(_) => None,
    }
}

/// The text of a resolved value.
pub fn to_text(value: Option<Vec<u8>>) -> (text: Option<String>)
    ensures
        optional_text(text) == as_text(optional(value)),
{
    match value {
        Some(bytes) => decode(bytes.as_slice()),
        None => None,
    }
}

/// Whether `text` spells `word`: two texts are the same where their
/// encodings are.
fn spells(text: &str, word: &str) -> (r: bool)
    ensures
        r == (text@ == word@),
{
    proof {
        encode_utf8_decode_utf8(text@);
        encode_utf8_decode_utf8(word@);
    }
    same_bytes(text.as_bytes(), word.as_bytes())
}

/// The switch that a text stands for.
pub fn parse_flag(text: &str) -> (flag: Option<bool>)
    ensures
        flag == flag_of(text@),
{
    if spells(text, "off") || spells(text, "OFF") || spells(text, "FALSE")
        || spells(text, "false") || spells(text, "0") {
        Some(false)
    } else if spells(text, "on") || spells(text, "ON") || spells(text, "TRUE")
        || spells(text, "true") || spells(text, "1") {
        Some(true)
    } else {
        None
    }
}

/// The switch of a resolved text.
pub fn to_flag(text: Option<String>) -> (flag: Option<bool>)
    ensures
        flag == as_flag(optional_text(text)),
{
    match text {
        Some(text) => parse_flag(text.as_str()),
        None => None,
    }
}

} // verus!
