//! The characters that JSON is made of, and what kind each is.
use vstd::prelude::*;

verus! {

pub const BACKSPACE: u8 = 0x08;

pub const TAB: u8 = 0x09;

pub const LINE_FEED: u8 = 0x0a;

pub const FORM_FEED: u8 = 0x0c;

pub const CARRIAGE_RETURN: u8 = 0x0d;

pub const SPACE: u8 = 0x20;

pub const QUOTE: u8 = 0x22;

pub const PLUS: u8 = 0x2b;

pub const COMMA: u8 = 0x2c;

pub const MINUS: u8 = 0x2d;

pub const DOT: u8 = 0x2e;

pub const SLASH: u8 = 0x2f;

pub const ZERO: u8 = 0x30;

pub const NINE: u8 = 0x39;

pub const COLON: u8 = 0x3a;

pub const UPPER_A: u8 = 0x41;

pub const UPPER_E: u8 = 0x45;

pub const UPPER_F: u8 = 0x46;

pub const OPEN_BRACKET: u8 = 0x5b;

pub const BACKSLASH: u8 = 0x5c;

pub const CLOSE_BRACKET: u8 = 0x5d;

pub const LOWER_A: u8 = 0x61;

pub const LOWER_B: u8 = 0x62;

pub const LOWER_E: u8 = 0x65;

pub const LOWER_F: u8 = 0x66;

pub const LOWER_L: u8 = 0x6c;

pub const LOWER_N: u8 = 0x6e;

pub const LOWER_R: u8 = 0x72;

pub const LOWER_S: u8 = 0x73;

pub const LOWER_T: u8 = 0x74;

pub const LOWER_U: u8 = 0x75;

pub const OPEN_BRACE: u8 = 0x7b;

pub const CLOSE_BRACE: u8 = 0x7d;

/// The white space of JSON: space, line feed, tab and carriage return.
#[verifier::allow_in_spec]
pub fn is_space(b: u8) -> bool
    returns
        b == SPACE || b == LINE_FEED || b == TAB || b == CARRIAGE_RETURN,
{
    b == SPACE || b == LINE_FEED || b == TAB || b == CARRIAGE_RETURN
}

/// A decimal digit.
#[verifier::allow_in_spec]
pub fn is_digit(b: u8) -> bool
    returns
        ZERO <= b && b <= NINE,
{
    ZERO <= b && b <= NINE
}

/// The letter between a number and its exponent.
#[verifier::allow_in_spec]
pub fn is_exponent_mark(b: u8) -> bool
    returns
        b == LOWER_E || b == UPPER_E,
{
    b == LOWER_E || b == UPPER_E
}

/// A control character, which may not stand in a string as it is.
#[verifier::allow_in_spec]
pub fn is_control(b: u8) -> bool
    returns
        b < SPACE,
{
    b < SPACE
}

/// What a decimal digit counts.
pub open spec fn digit_value(b: u8) -> nat {
    if is_digit(b) {
        (b - ZERO) as nat
    } else {
        0
    }
}

/// What a hexadecimal digit counts; `None` for any other byte.
pub open spec fn hex_value(b: u8) -> Option<nat> {
    if is_digit(b) {
        Some((b - ZERO) as nat)
    } else if LOWER_A <= b <= LOWER_F {
        Some((b - LOWER_A + 10) as nat)
    } else if UPPER_A <= b <= UPPER_F {
        Some((b - UPPER_A + 10) as nat)
    } else {
        None
    }
}

} // verus!
