//! Character-level text operations provided by std and by the regex crate.

use vstd::prelude::*;
use vstd::utf8::{decode_utf8, valid_utf8};

verus! {

/// Characters that carry a meaning in regex syntax.
pub open spec fn is_meta(c: char) -> bool {
    c == '\\' || c == '.' || c == '+' || c == '*' || c == '?' || c == '(' || c == ')' || c == '|'
        || c == '[' || c == ']' || c == '{' || c == '}' || c == '^' || c == '$' || c == '#' || c
        == '&' || c == '-' || c == '~'
}

/// `s` with a backslash put before each meta character.
pub open spec fn regex_escaped(s: Seq<char>) -> Seq<char>
    decreases s.len(),
{
    if s.len() == 0 {
        seq![]
    } else if is_meta(s.last()) {
        regex_escaped(s.drop_last()) + seq!['\\', s.last()]
    } else {
        regex_escaped(s.drop_last()) + seq![s.last()]
    }
}

/// What `char::escape_default` renders a character as.
pub uninterp spec fn escape_default_of(c: char) -> Seq<char>;

/// Relies on `regex::escape`: a backslash goes before each meta character
/// and every character is kept, in order.
#[verifier::external_body]
pub(crate) fn regex_escape(s: &str) -> (r: String)
    ensures
        r@ == regex_escaped(s@),
{
    regex::escape(s)
}

/// Relies on `char::escape_default`: printable ASCII other than quotes and
/// backslash stays as it is, tab, carriage return, line feed, quotes and
/// backslash take a backslash prefix, and the rendering is never empty.
#[verifier::external_body]
pub(crate) fn escape_char(c: char) -> (r: String)
    ensures
        r@ == escape_default_of(c),
        r@.len() >= 1,
        ('\x20' <= c <= '\x7e' && c != '\\' && c != '\'' && c != '"') ==> r@ == seq![c],
        c == '\\' ==> r@ == seq!['\\', '\\'],
        c == '\'' ==> r@ == seq!['\\', '\''],
        c == '"' ==> r@ == seq!['\\', '"'],
        c == '\t' ==> r@ == seq!['\\', 't'],
        c == '\r' ==> r@ == seq!['\\', 'r'],
        c == '\n' ==> r@ == seq!['\\', 'n'],
{
    c.escape_default().to_string()
}

/// Relies on `char::to_string`: the string of that one character.
#[verifier::external_body]
pub(crate) fn char_string(c: char) -> (r: String)
    ensures
        r@ == seq![c],
{
    c.to_string()
}

/// Relies on `std::str::from_utf8`: it accepts exactly the well-formed
/// UTF-8 byte strings and reads them as their characters.
#[verifier::external_body]
pub(crate) fn utf8_text(b: &[u8]) -> (r: Option<&str>)
    ensures
        r is Some <==> valid_utf8(b@),
        r is Some ==> r->0@ == decode_utf8(b@),
{
    std::str::from_utf8(b).ok()
}

} // verus!
