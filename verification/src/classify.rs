//! Character classification.
//!
//! Every ASCII code belongs to exactly one [`CharClass`]; the table built in
//! [`crate::dfa`] stores this classification per code.  The spec functions
//! here are the mathematical reference for that table and for the
//! specification-level tokenizer.
//!
//! Letters are `A`–`Z` and `a`–`z`, both bounds inclusive; the punctuation
//! codes between `Z` and `a` are not identifier characters, and `z` and `9`
//! do continue identifiers and numbers.

use vstd::prelude::*;

verus! {

/// The classification of a character, decided by the first character of a
/// token.  Fixed once the table is built; never mutated during scanning.
#[derive(Clone, Copy, PartialEq, Eq, Structural, Debug)]
pub enum CharClass {
    Unclassified,
    NumericDigit,
    IdentifierOrKeyword,
    SingleCharSymbol,
    MultiCharSymbol,
}

/// An ASCII letter: an identifier may start with it and continue with it.
pub open spec fn is_letter(c: char) -> bool {
    ('A' as u32 <= c as u32 && c as u32 <= 'Z' as u32) || ('a' as u32 <= c as u32 && c as u32
        <= 'z' as u32)
}

/// A decimal digit.
pub open spec fn is_digit(c: char) -> bool {
    '0' as u32 <= c as u32 && c as u32 <= '9' as u32
}

/// Whitespace, including line terminators: consumed, never emitted.
pub open spec fn is_space_char(c: char) -> bool {
    c == ' ' || c == '\n' || c == '\t' || c == '\r'
}

/// A symbol that never extends to a longer symbol.
pub open spec fn is_single_symbol(c: char) -> bool {
    c == ',' || c == '(' || c == ')' || c == '{' || c == '}'
}

/// A symbol that is also the prefix of a two-character symbol (`=` of `==`,
/// `+` of `+=`, and so on).
pub open spec fn is_multi_start(c: char) -> bool {
    c == '=' || c == '>' || c == '<' || c == '+' || c == '-' || c == '*' || c == '/'
}

/// Any symbol character.
pub open spec fn is_symbol_char(c: char) -> bool {
    is_single_symbol(c) || is_multi_start(c)
}

/// A delimiter cleanly terminates an identifier or keyword: whitespace,
/// a line terminator, or a symbol.
pub open spec fn is_delimiter_char(c: char) -> bool {
    is_space_char(c) || is_symbol_char(c)
}

/// Start of a literal form the lexer knows of but does not implement:
/// `.` (float continuation) and `"` (string literal).  These are surfaced
/// as unsupported rather than silently misread.
pub open spec fn is_unsupported_start(c: char) -> bool {
    c == '.' || c == '"'
}

/// A character that would continue a digit run into a literal form the
/// lexer does not implement: `.` (float), `x` (hex), `b` (binary).  A
/// digit run it follows is surfaced as unsupported, never emitted as a
/// plain integer.
pub open spec fn is_num_continuation(c: char) -> bool {
    c == '.' || c == 'x' || c == 'b'
}

/// The classification of a character.  Total: every character, ASCII or
/// not, falls in exactly one class.
pub open spec fn class_of(c: char) -> CharClass {
    if is_letter(c) {
        CharClass::IdentifierOrKeyword
    } else if is_digit(c) {
        CharClass::NumericDigit
    } else if is_single_symbol(c) {
        CharClass::SingleCharSymbol
    } else if is_multi_start(c) {
        CharClass::MultiCharSymbol
    } else {
        CharClass::Unclassified
    }
}

/// The code point of a character, stating how its integer casts relate.
pub fn code_of(c: char) -> (u: u32)
    ensures
        u == c as u32,
        (c as int) == u as int,
{
    c as u32
}

/// Runtime test for [`is_letter`].
pub fn letter(c: char) -> (r: bool)
    ensures
        r == is_letter(c),
{
    let u = c as u32;
    ('A' as u32 <= u && u <= 'Z' as u32) || ('a' as u32 <= u && u <= 'z' as u32)
}

/// Runtime test for [`is_digit`].
pub fn digit(c: char) -> (r: bool)
    ensures
        r == is_digit(c),
{
    let u = c as u32;
    '0' as u32 <= u && u <= '9' as u32
}

/// Runtime test for [`is_space_char`].
pub fn space(c: char) -> (r: bool)
    ensures
        r == is_space_char(c),
{
    c == ' ' || c == '\n' || c == '\t' || c == '\r'
}

/// Runtime test for [`is_delimiter_char`].
pub fn delimiter(c: char) -> (r: bool)
    ensures
        r == is_delimiter_char(c),
{
    space(c) || c == ',' || c == '(' || c == ')' || c == '{' || c == '}' || c == '=' || c == '>'
        || c == '<' || c == '+' || c == '-' || c == '*' || c == '/'
}

} // verus!
