//! Number literals and what they denote.
use crate::ascii::{is_digit, is_exponent_mark, DOT, MINUS, PLUS, ZERO};
use crate::error::ErrorCode;
use crate::outcome::Outcome;
use crate::read::Cursor;
use crate::{ascii, outcome, range, string};
use vstd::prelude::*;

verus! {

/// A number that is to become a double: `significand` times ten to the
/// `exponent`, negated unless `positive`.
#[derive(Debug, Clone, Copy, PartialEq, Eq, Structural)]
pub struct Decimal {
    /// Whether the number has no minus sign.
    pub positive: bool,
    /// Its leading digits.
    pub significand: u64,
    /// The power of ten they are multiplied with.
    pub exponent: i32,
}

/// A number as it was written.
#[derive(Debug, Clone, Copy, PartialEq, Eq, Structural)]
pub enum Number {
    /// An integer without a minus sign.
    PosInt(u64),
    /// An integer with a minus sign; zero or less.
    NegInt(i64),
    /// Any other number.
    Float(Decimal),
}

/// The place behind the digits that stand at `i`.
pub open spec fn digits_end(b: Seq<u8>, i: int) -> int
    decreases b.len() - i,
{
    if 0 <= i < b.len() && is_digit(b[i]) {
        digits_end(b, i + 1)
    } else {
        i
    }
}

/// Reads digits from `i` on behind those that gave `acc`, as long as the
/// number does not exceed `max`. Gives the number and the place behind its
/// last digit.
pub open spec fn fold_digits(b: Seq<u8>, i: int, acc: nat, max: nat) -> (nat, int)
    decreases b.len() - i,
{
    if 0 <= i < b.len() && is_digit(b[i]) && acc * 10 + ascii::digit_value(b[i]) <= max {
        fold_digits(b, i + 1, acc * 10 + ascii::digit_value(b[i]), max)
    } else {
        (acc, i)
    }
}

/// The `i32` nearest to an integer.
pub open spec fn clamp(n: int) -> int {
    if n > i32::MAX {
        i32::MAX as int
    } else if n < i32::MIN {
        i32::MIN as int
    } else {
        n
    }
}

/// Whether the byte at the cursor, if there is one, is `b`.
pub open spec fn faces(c: Cursor, b: u8) -> bool {
    !c.spent() && c.bytes[c.pos] == b
}

/// Whether an exponent begins at the cursor.
pub open spec fn faces_exponent(c: Cursor) -> bool {
    !c.spent() && is_exponent_mark(c.bytes[c.pos])
}

/// `next`, unless the source breaks where it has to be looked at first.
pub open spec fn looking<T>(c: Cursor, next: Outcome<T>) -> Outcome<T> {
    if c.spent() && c.broken() {
        outcome::broken()
    } else {
        next
    }
}

/// The number made of these parts, unless it is beyond every finite double.
pub open spec fn from_parts(c: Cursor, positive: bool, significand: nat, exponent: int) -> Outcome<
    Number,
> {
    if range::overflows(significand, exponent) {
        Outcome::Fail { code: ErrorCode::NumberOutOfRange, place: c.pos, pos: c.pos }
    } else {
        Outcome::Done {
            value: Number::Float(
                Decimal {
                    positive,
                    significand: significand as u64,
                    exponent: exponent as i32,
                },
            ),
            pos: c.pos,
        }
    }
}

/// A number whose exponent exceeds an `i32`, from behind the digit that made
/// it do so.
pub open spec fn exponent_overflow(
    c: Cursor,
    positive: bool,
    significand: nat,
    positive_exponent: bool,
) -> Outcome<Number> {
    if significand != 0 && positive_exponent {
        Outcome::Fail { code: ErrorCode::NumberOutOfRange, place: c.pos, pos: c.pos }
    } else {
        let e = c.at(digits_end(c.bytes, c.pos));
        looking(
            e,
            Outcome::Done {
                value: Number::Float(Decimal { positive, significand: 0, exponent: 0 }),
                pos: e.pos,
            },
        )
    }
}

/// The digits of an exponent and the end of the number.
#[verifier::opaque]
pub open spec fn exponent_digits(
    c: Cursor,
    positive: bool,
    significand: nat,
    start: int,
    positive_exponent: bool,
) -> Outcome<Number> {
    if c.spent() {
        looking(c, Outcome::Fail { code: ErrorCode::InvalidNumber, place: c.pos, pos: c.pos })
    } else if !is_digit(c.bytes[c.pos]) {
        string::fail_behind(c, ErrorCode::InvalidNumber)
    } else {
        let (exp, j) = fold_digits(
            c.bytes,
            c.pos + 1,
            ascii::digit_value(c.bytes[c.pos]),
            i32::MAX as nat,
        );
        if j < c.bytes.len() && is_digit(c.bytes[j]) {
            exponent_overflow(c.at(j + 1), positive, significand, positive_exponent)
        } else {
            looking(
                c.at(j),
                from_parts(
                    c.at(j),
                    positive,
                    significand,
                    clamp(
                        if positive_exponent {
                            start + exp
                        } else {
                            start - exp
                        },
                    ),
                ),
            )
        }
    }
}

/// An exponent and the end of the number, from the exponent mark on.
#[verifier::opaque]
pub open spec fn exponent(c: Cursor, positive: bool, significand: nat, start: int) -> Outcome<
    Number,
> {
    let s = c.at(c.pos + 1);
    looking(
        s,
        if faces(s, PLUS) {
            exponent_digits(s.at(s.pos + 1), positive, significand, start, true)
        } else if faces(s, MINUS) {
            exponent_digits(s.at(s.pos + 1), positive, significand, start, false)
        } else {
            exponent_digits(s, positive, significand, start, true)
        },
    )
}

/// A fraction and the end of the number, from the decimal point on. Digits
/// that do not fit the significand any more are dropped.
#[verifier::opaque]
pub open spec fn decimal(c: Cursor, positive: bool, significand: nat, start: int) -> Outcome<
    Number,
> {
    let i = c.pos + 1;
    let (significand, j) = fold_digits(c.bytes, i, significand, u64::MAX as nat);
    let e = c.at(digits_end(c.bytes, j));
    looking(
        e,
        if e.pos == i {
            Outcome::Fail { code: ErrorCode::InvalidNumber, place: e.peek_end(), pos: i }
        } else if faces_exponent(e) {
            exponent(e, positive, significand, clamp(start - (j - i)))
        } else {
            from_parts(e, positive, significand, clamp(start - (j - i)))
        },
    )
}

/// An integer that does not fit the significand, from the first digit that is
/// left over on. Each such digit counts one power of ten.
#[verifier::opaque]
pub open spec fn long_integer(c: Cursor, positive: bool, significand: nat, start: int) -> Outcome<
    Number,
> {
    let e = c.at(digits_end(c.bytes, c.pos));
    let exp = clamp(start + (e.pos - c.pos));
    looking(
        e,
        if faces(e, DOT) {
            decimal(e, positive, significand, exp)
        } else if faces_exponent(e) {
            exponent(e, positive, significand, exp)
        } else {
            from_parts(e, positive, significand, exp)
        },
    )
}

/// The number that is an integer, if it fits the integer types.
pub open spec fn integer_value(positive: bool, significand: nat) -> Number {
    if positive {
        Number::PosInt(significand as u64)
    } else if significand <= 0x8000_0000_0000_0000 {
        Number::NegInt((-significand) as i64)
    } else {
        Number::Float(Decimal { positive, significand: significand as u64, exponent: 0 })
    }
}

/// The rest of a number behind an integer part that fits the significand.
#[verifier::opaque]
pub open spec fn number(c: Cursor, positive: bool, significand: nat) -> Outcome<Number> {
    looking(
        c,
        if faces(c, DOT) {
            decimal(c, positive, significand, 0)
        } else if faces_exponent(c) {
            exponent(c, positive, significand, 0)
        } else {
            Outcome::Done { value: integer_value(positive, significand), pos: c.pos }
        },
    )
}

/// A number, from behind its minus sign if it has one.
#[verifier::opaque]
pub open spec fn integer(c: Cursor, positive: bool) -> Outcome<Number> {
    if c.spent() {
        looking(c, Outcome::Fail { code: ErrorCode::InvalidNumber, place: c.pos, pos: c.pos })
    } else if c.bytes[c.pos] == ZERO {
        let s = c.at(c.pos + 1);
        looking(
            s,
            if !s.spent() && is_digit(s.bytes[s.pos]) {
                Outcome::Fail { code: ErrorCode::InvalidNumber, place: s.pos + 1, pos: s.pos }
            } else {
                number(s, positive, 0)
            },
        )
    } else if is_digit(c.bytes[c.pos]) {
        let (significand, j) = fold_digits(
            c.bytes,
            c.pos + 1,
            ascii::digit_value(c.bytes[c.pos]),
            u64::MAX as nat,
        );
        if j < c.bytes.len() && is_digit(c.bytes[j]) {
            long_integer(c.at(j), positive, significand, 0)
        } else {
            looking(c.at(j), number(c.at(j), positive, significand))
        }
    } else {
        string::fail_behind(c, ErrorCode::InvalidNumber)
    }
}

/// Digits end inside the text.
pub proof fn lemma_digits_end_bounds(b: Seq<u8>, i: int)
    requires
        0 <= i <= b.len(),
    ensures
        i <= digits_end(b, i) <= b.len(),
        forall|k: int| i <= k < digits_end(b, i) ==> is_digit(#[trigger] b[k]),
        digits_end(b, i) < b.len() ==> !is_digit(b[digits_end(b, i)]),
    decreases b.len() - i,
{
    if i < b.len() && is_digit(b[i]) {
        lemma_digits_end_bounds(b, i + 1);
    }
}

/// Folding digits stops among them or where they end.
pub proof fn lemma_fold_digits_bounds(b: Seq<u8>, i: int, acc: nat, max: nat)
    requires
        0 <= i <= b.len(),
        acc <= max,
    ensures
        i <= fold_digits(b, i, acc, max).1 <= b.len(),
        fold_digits(b, i, acc, max).0 <= max,
        digits_end(b, fold_digits(b, i, acc, max).1) == digits_end(b, i),
    decreases b.len() - i,
{
    if i < b.len() && is_digit(b[i]) && acc * 10 + ascii::digit_value(b[i]) <= max {
        lemma_fold_digits_bounds(b, i + 1, acc * 10 + ascii::digit_value(b[i]), max);
    }
}

} // verus!
