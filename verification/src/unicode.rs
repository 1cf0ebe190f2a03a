use vstd::prelude::*;

verus! {

/// Whether a character counts as alphabetic for tokenisation.
///
/// The classification is Unicode's `Alphabetic` property, computed by
/// `char::is_alphabetic`; it is named here so that contracts can speak of it.
pub uninterp spec fn is_alpha(c: char) -> bool;

/// The Unicode full lowercase mapping of one character: one input character
/// may map to several output characters.
pub uninterp spec fn lower_chars(c: char) -> Seq<char>;

/// Whether a character is Unicode whitespace, as `char::is_whitespace`
/// classifies it.
pub uninterp spec fn is_space(c: char) -> bool;

/// Relies on `char::is_alphabetic`: the Unicode `Alphabetic` property.
/// The newline and apostrophe characters are control and punctuation
/// characters, which that property excludes.
#[verifier::external_body]
pub fn char_is_alphabetic(c: char) -> (r: bool)
    ensures
        r == is_alpha(c),
        c == '\n' ==> !r,
        c == '\'' ==> !r,
{
    c.is_alphabetic()
}

/// Relies on `char::to_lowercase`: the lowercase mapping depends on the
/// character alone (no locale), so its result is named by `lower_chars`.
#[verifier::external_body]
pub fn char_to_lowercase(c: char) -> (r: Vec<char>)
    ensures
        r@ == lower_chars(c),
{
    c.to_lowercase().collect()
}

/// Relies on `char::is_whitespace`: the Unicode `White_Space` property.
#[verifier::external_body]
pub fn char_is_whitespace(c: char) -> (r: bool)
    ensures
        r == is_space(c),
{
    c.is_whitespace()
}

/// Relies on `String::push`: appends the given character to the string.
#[verifier::external_body]
pub fn string_push_char(s: &mut String, c: char)
    ensures
        final(s)@ == old(s)@.push(c),
{
    s.push(c)
}

} // verus!
