//! Byte-position edits of `String`s.

use vstd::prelude::*;
use vstd::string::StringSliceAdditionalSpecFns;
use vstd::utf8::{
    encode_utf8, is_char_boundary, pop_first_scalar, take_first_scalar,
};

verus! {

/// The UTF-8 bytes of text `t`.
pub open spec fn utf8(t: Seq<char>) -> Seq<u8> {
    encode_utf8(t)
}

/// `bytes` with the character that starts at byte `idx` taken out.
pub open spec fn remove_char_at(bytes: Seq<u8>, idx: int) -> Seq<u8> {
    bytes.subrange(0, idx) + pop_first_scalar(bytes.subrange(idx, bytes.len() as int))
}

/// `bytes` with the UTF-8 encoding of `ch` put in at byte `idx`.
pub open spec fn insert_char_at(bytes: Seq<u8>, idx: int, ch: char) -> Seq<u8> {
    bytes.subrange(0, idx) + encode_utf8(seq![ch]) + bytes.subrange(idx, bytes.len() as int)
}

/// The number of UTF-8 bytes of `s`.
pub fn byte_len(s: &str) -> (n: usize)
    ensures
        n == utf8(s@).len(),
{
    s.as_bytes().len()
}

/// `String::insert`: puts `ch` in at byte position `idx`.
///
/// std panics where `idx` lies past the end or not on a character boundary; otherwise the
/// string's bytes become the bytes before `idx`, the UTF-8 encoding of `ch` and the bytes
/// from `idx` on. A `String` never holds more than `usize::MAX` bytes.
#[verifier::external_body]
pub(crate) fn string_insert(s: &mut String, idx: usize, ch: char)
    requires
        is_char_boundary(utf8(old(s)@), idx as int),
    ensures
        utf8(final(s)@) == insert_char_at(utf8(old(s)@), idx as int, ch),
        utf8(final(s)@).len() <= usize::MAX,
{
    s.insert(idx, ch)
}

/// `String::remove`: takes out the character that starts at byte position `idx` and
/// returns it.
///
/// std panics where `idx` is not below the length or not on a character boundary;
/// otherwise the returned character is the one whose UTF-8 encoding starts at `idx`, and
/// its bytes leave the string.
#[verifier::external_body]
pub(crate) fn string_remove(s: &mut String, idx: usize) -> (c: char)
    requires
        idx < utf8(old(s)@).len(),
        is_char_boundary(utf8(old(s)@), idx as int),
    ensures
        encode_utf8(seq![c]) == take_first_scalar(
            utf8(old(s)@).subrange(idx as int, utf8(old(s)@).len() as int),
        ),
        utf8(final(s)@) == remove_char_at(utf8(old(s)@), idx as int),
{
    s.remove(idx)
}

} // verus!
