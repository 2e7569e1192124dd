//! Character classification predicates used by the lexer: pure, total,
//! stateless functions from one character to a boolean.

use vstd::prelude::*;

verus! {

/// An ASCII alphabetic character: `a`-`z` or `A`-`Z`.
pub open spec fn letter_char(c: char) -> bool {
    (97 <= c as u32 && c as u32 <= 122) || (65 <= c as u32 && c as u32 <= 90)
}

/// A space-equivalent character: one with the Unicode `White_Space` property.
pub open spec fn whitespace_char(c: char) -> bool {
    let u = c as u32;
    u == 0x20 || (0x09 <= u && u <= 0x0D) || u == 0x85 || u == 0xA0 || u == 0x1680
        || (0x2000 <= u && u <= 0x200A) || u == 0x2028 || u == 0x2029 || u == 0x202F
        || u == 0x205F || u == 0x3000
}

/// An ASCII decimal digit: `0`-`9`.
pub open spec fn digit_char(c: char) -> bool {
    48 <= c as u32 && c as u32 <= 57
}

/// The numeric value of an ASCII decimal digit.
pub open spec fn digit_value(c: char) -> nat {
    (c as u32 - 48) as nat
}

pub open spec fn opening_parenthesis_char(c: char) -> bool {
    c == '('
}

pub open spec fn closing_parenthesis_char(c: char) -> bool {
    c == ')'
}

pub open spec fn parenthesis_char(c: char) -> bool {
    opening_parenthesis_char(c) || closing_parenthesis_char(c)
}

pub open spec fn quote_char(c: char) -> bool {
    c == '"'
}

/// An arithmetic operator character: `+`, `-`, `*`, `/` or `%`.
pub open spec fn operator_char(c: char) -> bool {
    c == '+' || c == '-' || c == '*' || c == '/' || c == '%'
}

pub fn is_letter(c: &char) -> (r: bool)
    ensures
        r == letter_char(*c),
{
    let u = *c as u32;
    (97 <= u && u <= 122) || (65 <= u && u <= 90)
}

pub fn is_whitespace(c: &char) -> (r: bool)
    ensures
        r == whitespace_char(*c),
{
    let u = *c as u32;
    u == 0x20 || (0x09 <= u && u <= 0x0D) || u == 0x85 || u == 0xA0 || u == 0x1680
        || (0x2000 <= u && u <= 0x200A) || u == 0x2028 || u == 0x2029 || u == 0x202F
        || u == 0x205F || u == 0x3000
}

pub fn is_number(c: &char) -> (r: bool)
    ensures
        r == digit_char(*c),
{
    let u = *c as u32;
    48 <= u && u <= 57
}

pub fn is_opening_parenthesis(c: &char) -> (r: bool)
    ensures
        r == opening_parenthesis_char(*c),
{
    *c == '('
}

pub fn is_closing_parenthesis(c: &char) -> (r: bool)
    ensures
        r == closing_parenthesis_char(*c),
{
    *c == ')'
}

pub fn is_parenthesis(c: &char) -> (r: bool)
    ensures
        r == parenthesis_char(*c),
{
    is_opening_parenthesis(c) || is_closing_parenthesis(c)
}

pub fn is_quote(c: &char) -> (r: bool)
    ensures
        r == quote_char(*c),
{
    *c == '"'
}

pub fn is_operator(c: &char) -> (r: bool)
    ensures
        r == operator_char(*c),
{
    *c == '+' || *c == '-' || *c == '*' || *c == '/' || *c == '%'
}

} // verus!
