//! Character-level views of text shared by the other modules.

use vstd::prelude::*;

verus! {

/// Number of bytes `c` occupies in UTF-8.
pub open spec fn char_utf8_len(c: char) -> nat {
    if (c as u32) < 0x80 {
        1
    } else if (c as u32) < 0x800 {
        2
    } else if (c as u32) < 0x10000 {
        3
    } else {
        4
    }
}

/// Number of bytes the characters of `s` occupy in UTF-8.
pub open spec fn utf8_len(s: Seq<char>) -> nat
    decreases s.len(),
{
    if s.len() == 0 {
        0
    } else {
        utf8_len(s.drop_last()) + char_utf8_len(s.last())
    }
}

/// The characters of a string, in order.
///
/// Calls `str::chars` and collects the iterator; the contract claims that the
/// vector holds exactly the characters of the string.
#[verifier::external_body]
pub(crate) fn chars_of(s: &str) -> (r: Vec<char>)
    ensures
        r@ == s@,
{
    s.chars().collect()
}

/// A string made of the given characters.
///
/// Collects the characters with `String::from_iter`; the contract claims that
/// the string holds exactly these characters.
#[verifier::external_body]
pub(crate) fn string_of(chars: &[char]) -> (r: String)
    ensures
        r@ == chars@,
{
    chars.iter().collect()
}

/// UTF-8 width of one character, as `char::len_utf8` documents it.
pub fn char_len_utf8(c: char) -> (n: usize)
    ensures
        n == char_utf8_len(c),
{
    let v = c as u32;
    if v < 0x80 {
        1
    } else if v < 0x800 {
        2
    } else if v < 0x10000 {
        3
    } else {
        4
    }
}


/// A string made of `chars[start..end]`.
///
/// Collects the characters with `String::from_iter`; the contract claims that
/// the string holds exactly that range of characters.
#[verifier::external_body]
pub(crate) fn string_of_range(chars: &[char], start: usize, end: usize) -> (r: String)
    requires
        start <= end <= chars@.len(),
    ensures
        r@ == chars@.subrange(start as int, end as int),
{
    chars[start..end].iter().collect()
}


/// Byte length of a string.
///
/// Calls `String::len`; the contract claims that the result is the length of
/// the UTF-8 encoding of the string's characters, which is what the string
/// stores.
#[verifier::external_body]
pub(crate) fn byte_len(s: &String) -> (r: usize)
    ensures
        r == vstd::utf8::encode_utf8(s@).len(),
{
    s.len()
}

} // verus!
