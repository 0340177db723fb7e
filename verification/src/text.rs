//! Building `String`s, and the two pieces of Unicode text handling the
//! command layer takes from std: lossy UTF-8 decoding and upper-casing.

use vstd::prelude::*;
use vstd::string::StringExecFns;
use vstd::utf8::{decode_utf8, encode_utf8, valid_utf8};
use vstd::string::StrSliceExecFns;

verus! {

/// Appends the string slice `t` to `s`.
pub(crate) fn push_text(s: &mut String, t: &str)
    ensures
        final(s)@ == old(s)@ + t@,
{
    s.append(t)
}

/// `String::push`: appends the character `c` to `s`.
#[verifier::external_body]
pub(crate) fn push_char(s: &mut String, c: char)
    ensures
        final(s)@ == old(s)@.push(c),
{
    s.push(c)
}

/// The UTF-8 encoding of a string of characters (vstd's `encode_utf8`).
pub open spec fn utf8_encode(s: Seq<char>) -> Seq<u8> {
    encode_utf8(s)
}

/// What `String::from_utf8_lossy` makes of the bytes `b`: their UTF-8
/// decoding, with each invalid sequence replaced by U+FFFD.
pub uninterp spec fn lossy_text(b: Seq<u8>) -> Seq<char>;

/// The lossy decoding of `b`, spelled out where the bytes are valid UTF-8.
pub open spec fn lossy_decode(b: Seq<u8>) -> Seq<char> {
    if valid_utf8(b) {
        decode_utf8(b)
    } else {
        lossy_text(b)
    }
}

/// What `str::to_uppercase` makes of the characters `s` (Unicode case
/// mapping, independent of locale).
pub uninterp spec fn upper_text(s: Seq<char>) -> Seq<char>;

/// `String::from_utf8_lossy`, made owned: the text of `b`, invalid UTF-8
/// sequences replaced by U+FFFD. The contract names the result, and states
/// the one case its documentation fixes: bytes that are valid UTF-8 come
/// back as the text they encode.
#[verifier::external_body]
pub(crate) fn from_utf8_lossy(b: &[u8]) -> (s: String)
    ensures
        s@ == lossy_text(b@),
        valid_utf8(b@) ==> s@ == decode_utf8(b@),
{
    String::from_utf8_lossy(b).into_owned()
}

/// `str::to_uppercase`: the Unicode upper-case form of `t`. The contract
/// names the result and says no more of it.
#[verifier::external_body]
pub(crate) fn to_uppercase(t: &str) -> (s: String)
    ensures
        s@ == upper_text(t@),
{
    t.to_uppercase()
}

/// The bytes of a `String`: the UTF-8 encoding of its characters.
pub(crate) fn into_bytes(s: String) -> (b: Vec<u8>)
    ensures
        b@ == utf8_encode(s@),
{
    s.as_str().as_bytes_vec()
}

/// A fresh `String` holding the text of `t`.
pub fn owned(t: &str) -> (s: String)
    ensures
        s@ == t@,
{
    t.to_owned()
}

/// Whether `s` is exactly the text `w`.
pub fn is_word(s: &String, w: &str) -> (b: bool)
    ensures
        b == (s@ == w@),
{
    *s == owned(w)
}

} // verus!
