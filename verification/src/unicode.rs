//! Trusted interface to the Unicode character tables of the standard
//! library. Each classification or mapping is a function of the character
//! alone, so it is given a name here and the standard library call is
//! assumed to return that name's value.

use vstd::prelude::*;
use vstd::string::StrSliceExecFns;

verus! {

/// Whether `c` falls in a Unicode letter category, as decided by
/// `char::is_alphabetic`.
pub uninterp spec fn is_unicode_alphabetic(c: char) -> bool;

/// Whether `c` falls in a Unicode number category, as decided by
/// `char::is_numeric`.
pub uninterp spec fn is_unicode_numeric(c: char) -> bool;

/// Whether `c` has the Unicode `White_Space` property, as decided by
/// `char::is_whitespace`.
pub uninterp spec fn is_unicode_whitespace(c: char) -> bool;

/// The Unicode lowercase mapping of `c`, as produced by
/// `char::to_lowercase`; a character may lower to more than one character.
pub uninterp spec fn lower_chars(c: char) -> Seq<char>;

/// Relies on char::is_alphabetic: membership in a letter category depends
/// on the character alone.
pub assume_specification[ char::is_alphabetic ](c: char) -> (r: bool)
    ensures
        r == is_unicode_alphabetic(c),
;

/// Relies on char::is_numeric: membership in a number category depends on
/// the character alone.
pub assume_specification[ char::is_numeric ](c: char) -> (r: bool)
    ensures
        r == is_unicode_numeric(c),
;

/// Relies on char::is_whitespace: the `White_Space` property depends on
/// the character alone; the documentation lists U+0020 as whitespace.
pub assume_specification[ char::is_whitespace ](c: char) -> (r: bool)
    ensures
        r == is_unicode_whitespace(c),
        c == ' ' ==> r,
;

/// Relies on char::to_lowercase: the lowercase mapping depends on the
/// character alone.
#[verifier::external_body]
pub(crate) fn char_to_lowercase(c: char) -> (v: Vec<char>)
    ensures
        v@ == lower_chars(c),
{
    c.to_lowercase().collect()
}

/// Relies on String's FromIterator over characters: collecting characters
/// yields the string of exactly those characters, in order.
#[verifier::external_body]
pub(crate) fn string_from_chars(v: &Vec<char>) -> (s: String)
    ensures
        s@ == v@,
{
    v.iter().collect()
}

/// The characters of `s`, in order.
pub fn chars_of(s: &str) -> (v: Vec<char>)
    ensures
        v@ == s@,
{
    let n = s.unicode_len();
    let mut v: Vec<char> = Vec::with_capacity(n);
    let mut i: usize = 0;
    while i < n
        invariant
            i <= n,
            n == s@.len(),
            v@ == s@.take(i as int),
        decreases n - i,
    {
        v.push(s.get_char(i));
        assert(v@ =~= s@.take(i + 1));
        i = i + 1;
    }
    assert(s@.take(n as int) =~= s@);
    v
}

} // verus!
