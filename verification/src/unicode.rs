//! What the launcher takes from Unicode: case, character classes and decomposition. The tables
//! are those of `std` and of the `unicode_normalization` crate; here their results have names.
use unicode_normalization::UnicodeNormalization;
use vstd::prelude::*;

use crate::text::{ascii, ascii_lower};

verus! {

/// The ASCII letters and digits.
pub open spec fn ascii_alphanumeric(ch: char) -> bool {
    ('0' <= ch && ch <= '9') || ('A' <= ch && ch <= 'Z') || ('a' <= ch && ch <= 'z')
}

/// Whether a character is alphabetic or numeric, by `char::is_alphanumeric`.
pub uninterp spec fn alphanumeric(ch: char) -> bool;

/// The lowercase mapping of a character, by `char::to_lowercase`.
pub uninterp spec fn lowercase_mapping(ch: char) -> Seq<char>;

/// A text in lowercase, by `str::to_lowercase`.
pub uninterp spec fn lowercase(text: Seq<char>) -> Seq<char>;

/// The compatibility decomposition (form NFKD) of a text, by `unicode_normalization`.
pub uninterp spec fn compatibility_decomposition(text: Seq<char>) -> Seq<char>;

/// Whether a character is a combining mark, by `unicode_normalization`.
pub uninterp spec fn combining_mark(ch: char) -> bool;

/// The text of some bytes, with U+FFFD for what is not UTF-8, by `String::from_utf8_lossy`.
pub uninterp spec fn lossy_text(bytes: Seq<u8>) -> Seq<char>;

/// Calls `String::from_utf8_lossy`. The result depends on the bytes alone; bytes that are UTF-8
/// are decoded.
#[verifier::external_body]
pub(crate) fn from_utf8_lossy(bytes: &[u8]) -> (res: String)
    ensures
        res@ == lossy_text(bytes@),
        vstd::utf8::valid_utf8(bytes@) ==> res@ == vstd::utf8::decode_utf8(bytes@),
{
    String::from_utf8_lossy(bytes).into_owned()
}

/// Calls `char::is_alphanumeric`. Its result depends on the character alone; below U+0080 it
/// holds of the ASCII letters and digits only.
#[verifier::external_body]
pub(crate) fn is_alphanumeric(ch: char) -> (res: bool)
    ensures
        res == alphanumeric(ch),
        (ch as u32) < 0x80 ==> res == ascii_alphanumeric(ch),
{
    ch.is_alphanumeric()
}

/// Calls `char::to_lowercase` and collects what it yields. The result depends on the character
/// alone; below U+0080 it is the one character with A to Z lowered.
#[verifier::external_body]
pub(crate) fn char_to_lowercase(ch: char) -> (res: Vec<char>)
    ensures
        res@ == lowercase_mapping(ch),
        (ch as u32) < 0x80 ==> res@ == seq![ascii_lower(ch)],
{
    ch.to_lowercase().collect()
}

/// Calls `str::to_lowercase`. The result depends on the text alone; of a text below U+0080 it is
/// the text with A to Z lowered.
#[verifier::external_body]
pub(crate) fn str_to_lowercase(text: &str) -> (res: String)
    ensures
        res@ == lowercase(text@),
        ascii(text@) ==> res@ == text@.map_values(|ch: char| ascii_lower(ch)),
{
    text.to_lowercase()
}

/// Calls `UnicodeNormalization::nfkd` and collects what it yields. The result depends on the text
/// alone; a text below U+0080 is its own decomposition.
#[verifier::external_body]
pub(crate) fn nfkd(text: &str) -> (res: Vec<char>)
    ensures
        res@ == compatibility_decomposition(text@),
        ascii(text@) ==> res@ == text@,
{
    text.nfkd().collect()
}

/// Calls `unicode_normalization::char::is_combining_mark`. The result depends on the character
/// alone; no character below U+0080 is a combining mark.
#[verifier::external_body]
pub(crate) fn is_combining_mark(ch: char) -> (res: bool)
    ensures
        res == combining_mark(ch),
        (ch as u32) < 0x80 ==> !res,
{
    unicode_normalization::char::is_combining_mark(ch)
}

} // verus!
