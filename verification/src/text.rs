//! What the library needs of characters and strings beyond what the
//! verifier knows of them.

use vstd::prelude::*;
use vstd::string::StrSliceExecFns;

verus! {

/// Whether a character is white space: whether it has the Unicode
/// property `White_Space`, which these 25 characters have.
pub open spec fn whitespace(c: char) -> bool {
    let code = c as u32;
    ||| 0x0009 <= code <= 0x000d
    ||| code == 0x0020
    ||| code == 0x0085
    ||| code == 0x00a0
    ||| code == 0x1680
    ||| 0x2000 <= code <= 0x200a
    ||| code == 0x2028
    ||| code == 0x2029
    ||| code == 0x202f
    ||| code == 0x205f
    ||| code == 0x3000
}

/// Whether a character is alphabetic, by its Unicode property.
pub uninterp spec fn alphabetic(c: char) -> bool;

/// Whether a character is alphabetic or numeric, by its Unicode
/// properties.
pub uninterp spec fn alphanumeric(c: char) -> bool;

/// A character as it is written when escaped for debugging: itself if it
/// is printable and needs no backslash, an escape sequence otherwise.
pub uninterp spec fn escaped(c: char) -> Seq<char>;

/// Whether a character is written as itself when escaped for debugging.
pub open spec fn plain(c: char) -> bool {
    escaped(c).len() == 1
}

/// `String::push`: appends one character.
#[verifier::external_body]
pub(crate) fn push_char(text: &mut String, c: char)
    ensures
        final(text)@ == old(text)@.push(c),
{
    text.push(c);
}

/// The characters of a text.
pub fn chars_of(text: &str) -> (chars: Vec<char>)
    ensures
        chars@ == text@,
{
    let mut chars: Vec<char> = Vec::new();
    for c in it: text.chars()
        invariant
            it.seq() == text@,
            chars@ == it.seq().take(it.index() as int),
    {
        chars.push(c);
        assert(chars@ =~= it.seq().take(it.index() + 1));
    }
    assert(chars@ =~= text@);
    chars
}

/// `char::is_whitespace`: whether the character has the Unicode property
/// `White_Space`.
#[verifier::external_body]
pub(crate) fn is_whitespace(c: char) -> (b: bool)
    ensures
        b == whitespace(c),
{
    c.is_whitespace()
}

/// `char::is_alphabetic`.
#[verifier::external_body]
pub(crate) fn is_alphabetic(c: char) -> (b: bool)
    ensures
        b == alphabetic(c),
{
    c.is_alphabetic()
}

/// `char::is_alphanumeric`.
#[verifier::external_body]
pub(crate) fn is_alphanumeric(c: char) -> (b: bool)
    ensures
        b == alphanumeric(c),
{
    c.is_alphanumeric()
}

/// `char::escape_debug`, as a text: the escaped form of a character.
#[verifier::external_body]
pub(crate) fn escape_debug(c: char) -> (text: String)
    ensures
        text@ == escaped(c),
{
    c.escape_debug().to_string()
}

/// Whether a character is written as itself when escaped for debugging.
pub fn is_plain(c: char) -> (b: bool)
    ensures
        b == plain(c),
{
    let text = escape_debug(c);
    text.as_str().unicode_len() == 1
}

} // verus!
