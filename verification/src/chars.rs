//! Character classes of the source language.
use vstd::prelude::*;

verus! {

/// Whether `c` is alphanumeric in the Unicode sense, as `char::is_alphanumeric`
/// decides it.
pub uninterp spec fn unicode_alphanumeric(c: char) -> bool;

/// Whether `c` is numeric in the Unicode sense, as `char::is_numeric` decides it.
pub uninterp spec fn unicode_numeric(c: char) -> bool;

/// `char::is_alphanumeric` of std, taken as its documentation has it: a
/// function of the character alone, which holds of the letters `a`-`z` and
/// `A`-`Z` and of the digits `0`-`9`. Of other characters nothing is
/// claimed.
pub assume_specification[ char::is_alphanumeric ](c: char) -> (r: bool)
    ensures
        r == unicode_alphanumeric(c),
        is_ascii_letter(c) || is_digit(c) ==> r,
;

/// `char::is_numeric` of std, taken as its documentation has it: a function
/// of the character alone, which holds of the digits `0`-`9`. Of other
/// characters nothing is claimed.
pub assume_specification[ char::is_numeric ](c: char) -> (r: bool)
    ensures
        r == unicode_numeric(c),
        is_digit(c) ==> r,
;

/// Blank characters, which separate tokens and are otherwise ignored.
pub open spec fn is_space(c: char) -> bool {
    c == ' ' || c == '\n' || c == '\t'
}

/// The three characters that open and close a string literal.
pub open spec fn is_quote(c: char) -> bool {
    c == '"' || c == '`' || c == '\''
}

pub open spec fn is_ascii_letter(c: char) -> bool {
    ('a' <= c && c <= 'z') || ('A' <= c && c <= 'Z')
}

pub open spec fn is_digit(c: char) -> bool {
    '0' <= c && c <= '9'
}

/// A character that may begin a word (a keyword, a type name or an identifier).
pub open spec fn is_word_start(c: char) -> bool {
    is_ascii_letter(c) || c == '_'
}

/// A character that may continue a word: an underscore or an alphanumeric
/// character, among them the letters and digits of ASCII.
pub open spec fn is_word_part(c: char) -> bool {
    is_ascii_letter(c) || is_digit(c) || c == '_' || unicode_alphanumeric(c)
}

/// A character that may continue a numeric literal: a point or a numeric
/// character, among them the digits of ASCII.
pub open spec fn is_number_part(c: char) -> bool {
    is_digit(c) || c == '.' || unicode_numeric(c)
}

/// The punctuation characters, each of which is a token by itself.
pub open spec fn is_symbol(c: char) -> bool {
    c == ':' || c == ';' || c == ',' || c == '{' || c == '}' || c == '(' || c == ')' || c == '+'
        || c == '-' || c == '*' || c == '/' || c == '=' || c == '<' || c == '>' || c == '.'
}

#[verifier::when_used_as_spec(is_space)]
pub fn space(c: char) -> (r: bool)
    ensures
        r == is_space(c),
{
    c == ' ' || c == '\n' || c == '\t'
}

#[verifier::when_used_as_spec(is_quote)]
pub fn quote(c: char) -> (r: bool)
    ensures
        r == is_quote(c),
{
    c == '"' || c == '`' || c == '\''
}

#[verifier::when_used_as_spec(is_digit)]
pub fn digit(c: char) -> (r: bool)
    ensures
        r == is_digit(c),
{
    '0' <= c && c <= '9'
}

#[verifier::when_used_as_spec(is_word_start)]
pub fn word_start(c: char) -> (r: bool)
    ensures
        r == is_word_start(c),
{
    ('a' <= c && c <= 'z') || ('A' <= c && c <= 'Z') || c == '_'
}

#[verifier::when_used_as_spec(is_word_part)]
pub fn word_part(c: char) -> (r: bool)
    ensures
        r == is_word_part(c),
{
    c.is_alphanumeric() || c == '_'
}

#[verifier::when_used_as_spec(is_number_part)]
pub fn number_part(c: char) -> (r: bool)
    ensures
        r == is_number_part(c),
{
    c.is_numeric() || c == '.'
}

#[verifier::when_used_as_spec(is_symbol)]
pub fn symbol(c: char) -> (r: bool)
    ensures
        r == is_symbol(c),
{
    c == ':' || c == ';' || c == ',' || c == '{' || c == '}' || c == '(' || c == ')' || c == '+'
        || c == '-' || c == '*' || c == '/' || c == '=' || c == '<' || c == '>' || c == '.'
}

} // verus!
