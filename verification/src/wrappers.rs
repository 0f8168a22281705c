//! The calls that leave this crate: each function here hands its arguments to
//! one function of `str_indices` or of the standard library, and states what
//! that function's documentation promises. Nothing in this file is proved.
use vstd::prelude::*;
use vstd::utf8::{encode_utf8, valid_utf8};

verus! {

/// `str_indices::chars::count`: the number of characters in `text`.
#[verifier::external_body]
pub(crate) fn count_chars(text: &str) -> (count: usize)
    ensures
        count == text@.len(),
{
    str_indices::chars::count(text)
}

/// `str_indices::chars::to_byte_idx`: the byte offset at which character
/// number `char_idx` of `text` starts, and the byte length of `text` where
/// `char_idx` is at or past the end.
#[verifier::external_body]
pub(crate) fn char_to_byte_idx(text: &str, char_idx: usize) -> (byte_idx: usize)
    ensures
        char_idx <= text@.len() ==> byte_idx == encode_utf8(
            text@.subrange(0, char_idx as int),
        ).len(),
        char_idx > text@.len() ==> byte_idx == encode_utf8(text@).len(),
{
    str_indices::chars::to_byte_idx(text, char_idx)
}

/// `std::str::from_utf8`: the string that `bytes` encodes. Valid UTF-8 is
/// always accepted, and the string returned has exactly the bytes given.
#[verifier::external_body]
pub(crate) fn str_from_utf8(bytes: &[u8]) -> (text: Option<&str>)
    ensures
        valid_utf8(bytes@) ==> text is Some,
        text matches Some(s) ==> encode_utf8(s@) == bytes@,
{
    match std::str::from_utf8(bytes) {
        Ok(s) => Some(s),
        Err(_) => None,
    }
}

/// `<[u8]>::copy_within`: copies `data[start..end]` to the same number of
/// bytes from `dest` on, as if through a buffer, and leaves the rest as it
/// was. The two ranges may overlap.
#[verifier::external_body]
pub(crate) fn copy_within(data: &mut Vec<u8>, start: usize, end: usize, dest: usize)
    requires
        start <= end <= old(data)@.len(),
        dest + (end - start) <= old(data)@.len(),
    ensures
        final(data)@ == old(data)@.subrange(0, dest as int) + old(data)@.subrange(
            start as int,
            end as int,
        ) + old(data)@.subrange(dest + (end - start), old(data)@.len() as int),
{
    data.copy_within(start..end, dest)
}

/// `char::encode_utf8`: the one-character string of `c`, written into `buf`.
/// Four bytes hold any character.
#[verifier::external_body]
pub(crate) fn encode_char<'a>(c: char, buf: &'a mut [u8; 4]) -> (text: &'a str)
    ensures
        text@ == seq![c],
{
    c.encode_utf8(buf)
}

/// `String::push`: appends the character `c` to `text`.
#[verifier::external_body]
pub(crate) fn push_char(text: &mut String, c: char)
    ensures
        final(text)@ == old(text)@.push(c),
{
    text.push(c)
}

} // verus!
