//! Code point classes of CSS Syntax Level 3, on the bytes of UTF-8 text.
//!
//! Every code point that CSS syntax treats specially is ASCII, and every
//! byte of a non-ASCII code point is at least `0x80`. The classes below take
//! one byte: a byte of `0x80` or more stands for the non-ASCII code point it
//! belongs to, which CSS counts as an ident code point.

use vstd::prelude::*;

verus! {

pub const C_TAB: u8 = 0x09;
pub const C_LINE_FEED: u8 = 0x0a;
pub const C_FORM_FEED: u8 = 0x0c;
pub const C_CARRIAGE_RETURN: u8 = 0x0d;
pub const C_SPACE: u8 = 0x20;
pub const C_EXCLAMATION_MARK: u8 = 0x21;
pub const C_QUOTATION_MARK: u8 = 0x22;
pub const C_NUMBER_SIGN: u8 = 0x23;
pub const C_PERCENTAGE: u8 = 0x25;
pub const C_APOSTROPHE: u8 = 0x27;
pub const C_LEFT_PARENTHESIS: u8 = 0x28;
pub const C_RIGHT_PARENTHESIS: u8 = 0x29;
pub const C_ASTERISK: u8 = 0x2a;
pub const C_PLUS_SIGN: u8 = 0x2b;
pub const C_COMMA: u8 = 0x2c;
pub const C_HYPHEN_MINUS: u8 = 0x2d;
pub const C_FULL_STOP: u8 = 0x2e;
pub const C_SOLIDUS: u8 = 0x2f;
pub const C_COLON: u8 = 0x3a;
pub const C_SEMICOLON: u8 = 0x3b;
pub const C_LESS_THAN_SIGN: u8 = 0x3c;
pub const C_GREATER_THAN_SIGN: u8 = 0x3e;
pub const C_AT_SIGN: u8 = 0x40;
pub const C_REVERSE_SOLIDUS: u8 = 0x5c;
pub const C_LOW_LINE: u8 = 0x5f;
pub const C_LEFT_CURLY: u8 = 0x7b;
pub const C_RIGHT_CURLY: u8 = 0x7d;

/// Tab, line feed, form feed, carriage return or space.
#[verifier::allow_in_spec]
pub fn is_white_space(b: u8) -> bool
    returns
        b == 0x09 || b == 0x0a || b == 0x0c || b == 0x0d || b == 0x20,
{
    b == C_TAB || b == C_LINE_FEED || b == C_FORM_FEED || b == C_CARRIAGE_RETURN || b == C_SPACE
}

/// Line feed, form feed or carriage return.
#[verifier::allow_in_spec]
pub fn is_new_line(b: u8) -> bool
    returns
        b == 0x0a || b == 0x0c || b == 0x0d,
{
    b == C_LINE_FEED || b == C_FORM_FEED || b == C_CARRIAGE_RETURN
}

#[verifier::allow_in_spec]
pub fn is_digit(b: u8) -> bool
    returns
        0x30 <= b <= 0x39,
{
    0x30 <= b && b <= 0x39
}

#[verifier::allow_in_spec]
pub fn is_hex_digit(b: u8) -> bool
    returns
        (0x30 <= b <= 0x39) || (0x41 <= b <= 0x46) || (0x61 <= b <= 0x66),
{
    (0x30 <= b && b <= 0x39) || (0x41 <= b && b <= 0x46) || (0x61 <= b && b <= 0x66)
}

/// A letter, a low line, or a byte of a non-ASCII code point.
#[verifier::allow_in_spec]
pub fn is_ident_start(b: u8) -> bool
    returns
        (0x41 <= b <= 0x5a) || (0x61 <= b <= 0x7a) || b == 0x5f || b >= 0x80,
{
    (0x41 <= b && b <= 0x5a) || (0x61 <= b && b <= 0x7a) || b == C_LOW_LINE || b >= 0x80
}

/// An ident-start byte, a digit or a hyphen-minus.
#[verifier::allow_in_spec]
pub fn is_ident(b: u8) -> bool
    returns
        is_ident_start(b) || is_digit(b) || b == 0x2d,
{
    is_ident_start(b) || is_digit(b) || b == C_HYPHEN_MINUS
}

/// The lower-case form of an ASCII capital letter; any other byte unchanged.
#[verifier::allow_in_spec]
pub fn to_ascii_lower(b: u8) -> u8
    returns
        (if 0x41 <= b <= 0x5a {
            (b + 0x20) as u8
        } else {
            b
        }),
{
    if 0x41 <= b && b <= 0x5a {
        b + 0x20
    } else {
        b
    }
}

} // verus!
