//! Character classes of the XML 1.0 recommendation.

use vstd::prelude::*;

verus! {

/// What `char::is_alphabetic` returns: whether the character has the Unicode
/// `Alphabetic` property.
pub uninterp spec fn unicode_alphabetic(c: char) -> bool;

/// What `char::is_alphanumeric` returns: whether the character is
/// alphabetic or numeric in the Unicode sense.
pub uninterp spec fn unicode_alphanumeric(c: char) -> bool;

/// Calls `char::is_alphabetic`; the result is the Unicode `Alphabetic`
/// property of `c`, named `unicode_alphabetic` and not spelled out here.
#[verifier::external_body]
pub(crate) fn char_is_alphabetic(c: char) -> (r: bool)
    ensures
        r == unicode_alphabetic(c),
{
    c.is_alphabetic()
}

/// Calls `char::is_alphanumeric`; the result is named `unicode_alphanumeric`.
#[verifier::external_body]
pub(crate) fn char_is_alphanumeric(c: char) -> (r: bool)
    ensures
        r == unicode_alphanumeric(c),
{
    c.is_alphanumeric()
}

/// Whether the character has the Unicode `White_Space` property: the
/// controls tab to carriage return, space, next line, no-break space, the
/// Ogham space mark, the spaces from en quad to hair space, the line and
/// paragraph separators, and the narrow no-break, medium mathematical and
/// ideographic spaces.
pub open spec fn unicode_whitespace(c: char) -> bool {
    let u = c as u32;
    ||| 0x09 <= u <= 0x0D
    ||| u == 0x20
    ||| u == 0x85
    ||| u == 0xA0
    ||| u == 0x1680
    ||| 0x2000 <= u <= 0x200A
    ||| u == 0x2028
    ||| u == 0x2029
    ||| u == 0x202F
    ||| u == 0x205F
    ||| u == 0x3000
}

/// Whether the character is Unicode white space (as `char::is_whitespace`
/// decides it).
pub(crate) fn char_is_whitespace(c: char) -> (r: bool)
    ensures
        r == unicode_whitespace(c),
{
    let u = c as u32;
    (0x09 <= u && u <= 0x0D) || u == 0x20 || u == 0x85 || u == 0xA0 || u == 0x1680 || (0x2000 <= u && u <= 0x200A)
        || u == 0x2028 || u == 0x2029 || u == 0x202F || u == 0x205F || u == 0x3000
}

/// A character that may start an XML name.
pub open spec fn name_start_char(c: char) -> bool {
    unicode_alphabetic(c) || c == '_' || c == ':'
}

/// A character that may appear inside an XML name.
pub open spec fn name_char(c: char) -> bool {
    unicode_alphanumeric(c) || c == '_' || c == '-' || c == ':' || c == '.'
}

/// XML white space: space, tab, carriage return and line feed.
pub open spec fn xml_space(c: char) -> bool {
    c == ' ' || c == '\t' || c == '\r' || c == '\n'
}

/// The `Char` production of XML 1.0 (fifth edition), section 2.2.
pub open spec fn xml_char(c: char) -> bool {
    let u = c as u32;
    u == 0x9 || u == 0xA || u == 0xD || (0x20 <= u <= 0xD7FF) || (0xE000 <= u <= 0xFFFD) || (
    0x10000 <= u <= 0x10FFFF)
}

/// Returns `true` if `ch` may start an XML name.
pub fn is_xml_name_start(ch: char) -> (r: bool)
    ensures
        r == name_start_char(ch),
{
    char_is_alphabetic(ch) || ch == '_' || ch == ':'
}

/// Returns `true` if `ch` may appear inside an XML name.
pub fn is_xml_name_char(ch: char) -> (r: bool)
    ensures
        r == name_char(ch),
{
    char_is_alphanumeric(ch) || ch == '_' || ch == '-' || ch == ':' || ch == '.'
}

/// Returns `true` if `ch` is XML white space.
pub fn is_xml_whitespace(ch: char) -> (r: bool)
    ensures
        r == xml_space(ch),
{
    ch == ' ' || ch == '\t' || ch == '\r' || ch == '\n'
}

/// Returns `true` if `ch` is allowed by the `Char` production.
pub fn is_valid_xml_char(ch: char) -> (r: bool)
    ensures
        r == xml_char(ch),
{
    let u = ch as u32;
    u == 0x9 || u == 0xA || u == 0xD || (0x20 <= u && u <= 0xD7FF) || (0xE000 <= u && u
        <= 0xFFFD) || (0x10000 <= u && u <= 0x10FFFF)
}

} // verus!
