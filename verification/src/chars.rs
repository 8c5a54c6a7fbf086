//! Characters: the digit and word classes, and a line as a sequence of
//! characters.

use vstd::prelude::*;

verus! {

/// Whether `c` is one of the ten decimal digits `0` to `9`.
pub open spec fn is_digit_char(c: char) -> bool {
    '0' <= c <= '9'
}

/// Whether `c` is a word character: a letter or a number, as
/// `char::is_alphanumeric` classifies it.
pub uninterp spec fn is_word_char(c: char) -> bool;

/// `c` itself. An element of a `Seq<char>` is not known to the verifier to
/// be a `char` until it has passed through a function that returns one; a
/// proof that builds nodes from the characters of a text names them so.
pub open spec fn as_char(c: char) -> char {
    c
}

/// Tells whether `c` is a decimal digit.
pub fn is_digit(c: char) -> (r: bool)
    ensures
        r == is_digit_char(c),
{
    '0' <= c && c <= '9'
}

/// Calls `char::is_alphanumeric`, which classifies a character by its
/// Unicode properties alone. The contract only gives that classification
/// its name, `is_word_char`; nothing is claimed of any particular character.
#[verifier::external_body]
pub(crate) fn is_alphanumeric(c: char) -> (r: bool)
    ensures
        r == is_word_char(c),
{
    c.is_alphanumeric()
}

/// The characters of `s`, in order.
pub fn chars_of(s: &str) -> (v: Vec<char>)
    ensures
        v@ == s@,
{
    let mut v: Vec<char> = Vec::new();
    for c in it: s.chars()
        invariant
            it.seq() == s@,
            v@ == it.seq().take(it.index()),
    {
        v.push(c);
    }
    v
}

} // verus!
