//! Reading JSON text step by step.
use crate::ascii::{
    is_digit, is_exponent_mark, is_space, CLOSE_BRACE, CLOSE_BRACKET, COLON, DOT, MINUS, PLUS, ZERO,
};
use crate::error::{Error, ErrorCode, Result};
use crate::number::{Decimal, Number};
use crate::outcome::Outcome;
use crate::read::{Cursor, Position, Read, Reference};
use crate::{ascii, grammar, number, outcome, range, read, string};
use vstd::prelude::*;

verus! {

/// How deeply arrays and objects may be nested, counted with the level at
/// which the nesting is refused.
pub const DEPTH_LIMIT: u8 = 128;

/// Reads JSON values from a source.
#[derive(Debug)]
pub struct Deserializer<R> {
    read: R,
    remaining_depth: u8,
}

impl<'de, R: Read<'de>> Deserializer<R> {
    /// The state of the source.
    pub closed spec fn cursor(&self) -> Cursor {
        self.read.view()
    }

    /// The levels of nesting that are left.
    pub closed spec fn depth(&self) -> int {
        self.remaining_depth as int
    }

    /// The depth is counted in a byte.
    pub proof fn lemma_depth_bounds(&self)
        ensures
            0 <= self.depth() <= u8::MAX,
    {
    }

    /// Whether the next byte has been looked at and not yet consumed.
    pub closed spec fn peeked(&self) -> bool {
        self.read.peeked()
    }

    /// Whether a step that gave `r` did what `o` says and kept the depth.
    pub open spec fn steps<T>(before: Self, after: Self, r: Result<T>, o: Outcome<T>) -> bool {
        &&& outcome::settles(before.cursor(), after.cursor(), r, o)
        &&& after.depth() == before.depth()
    }

    /// A deserializer for one of the possible sources.
    pub fn new(read: R) -> (r: Self)
        ensures
            r.cursor() == read.view(),
            r.depth() == DEPTH_LIMIT,
    {
        Deserializer { read, remaining_depth: DEPTH_LIMIT }
    }

    /// The levels of nesting that are left. Each value that is refused for its
    /// nesting costs one of them for good.
    pub fn remaining_depth(&self) -> (r: u8)
        ensures
            r == self.depth(),
    {
        self.remaining_depth
    }

    /// The number of bytes consumed so far.
    pub fn byte_offset(&self) -> (r: usize)
        requires
            self.cursor().valid(),
        ensures
            r == self.cursor().pos,
    {
        self.read.byte_offset()
    }

    /// Looks at the next byte.
    pub fn peek(&mut self) -> (r: Result<Option<u8>>)
        requires
            old(self).cursor().valid(),
        ensures
            Self::steps(*old(self), *final(self), r, outcome::look(old(self).cursor())),
            r is Ok ==> final(self).peeked(),
    {
        match self.read.peek() {
            Ok(b) => Ok(b),
            Err(e) => Err(Error::io(e)),
        }
    }

    /// Looks at the next byte, which counts as zero at the end of the input.
    pub fn peek_or_null(&mut self) -> (r: Result<u8>)
        requires
            old(self).cursor().valid(),
        ensures
            Self::steps(
                *old(self),
                *final(self),
                r,
                outcome::look(old(self).cursor()).map(|b: Option<u8>| outcome::or_null(b)),
            ),
            r is Ok ==> final(self).peeked(),
    {
        match self.peek() {
            Ok(Some(b)) => Ok(b),
            Ok(None) => Ok(0),
            Err(e) => Err(e),
        }
    }

    /// Consumes the byte that was looked at.
    pub fn eat_char(&mut self)
        requires
            old(self).cursor().valid(),
            old(self).peeked(),
            !old(self).cursor().spent(),
        ensures
            final(self).cursor() == old(self).cursor().at(old(self).cursor().pos + 1),
            final(self).depth() == old(self).depth(),
    {
        self.read.discard();
    }

    /// Consumes the next byte.
    pub fn next_char(&mut self) -> (r: Result<Option<u8>>)
        requires
            old(self).cursor().valid(),
        ensures
            Self::steps(*old(self), *final(self), r, outcome::take(old(self).cursor())),
    {
        match self.read.next() {
            Ok(b) => Ok(b),
            Err(e) => Err(Error::io(e)),
        }
    }

    /// Consumes the next byte, which counts as zero at the end of the input.
    pub fn next_char_or_null(&mut self) -> (r: Result<u8>)
        requires
            old(self).cursor().valid(),
        ensures
            Self::steps(
                *old(self),
                *final(self),
                r,
                outcome::take(old(self).cursor()).map(|b: Option<u8>| outcome::or_null(b)),
            ),
    {
        match self.next_char() {
            Ok(Some(b)) => Ok(b),
            Ok(None) => Ok(0),
            Err(e) => Err(e),
        }
    }

    /// An error about the byte consumed last.
    pub fn error(&self, reason: ErrorCode) -> (r: Error)
        requires
            self.cursor().valid(),
        ensures
            r@.code == reason,
            (r@.line, r@.column) == read::line_column(self.cursor().bytes, self.cursor().pos),
    {
        let pos: Position = self.read.position();
        Error::syntax(reason, pos.line, pos.column)
    }

    /// An error about the byte that was looked at.
    pub fn peek_error(&self, reason: ErrorCode) -> (r: Error)
        requires
            self.cursor().valid(),
            self.peeked(),
        ensures
            r@.code == reason,
            (r@.line, r@.column) == read::line_column(
                self.cursor().bytes,
                self.cursor().peek_end(),
            ),
    {
        let pos: Position = self.read.peek_position();
        Error::syntax(reason, pos.line, pos.column)
    }

    /// Puts an error that concerns no known place at the byte consumed last.
    /// The error may have arisen where that byte or the one behind it was read.
    pub fn fix_position(&self, error: Error) -> (r: Error)
        requires
            self.cursor().valid(),
        ensures
            r@.code == error@.code,
            error@.line != 0 ==> r@ == error@,
            error@.line == 0 ==> (r@.line, r@.column) == read::line_column(
                self.cursor().bytes,
                self.cursor().pos,
            ),
    {
        let pos: Position = self.read.position();
        error.fix_position(pos.line, pos.column)
    }

    /// Skips white space and looks at what follows it.
    pub fn parse_whitespace(&mut self) -> (r: Result<Option<u8>>)
        requires
            old(self).cursor().valid(),
        ensures
            Self::steps(*old(self), *final(self), r, grammar::whitespace(old(self).cursor())),
            final(self).cursor().pos == grammar::spaced(old(self).cursor()).pos,
            r is Ok ==> final(self).peeked(),
    {
        loop
            invariant
                old(self).cursor().valid(),
                self.cursor().valid(),
                self.depth() == old(self).depth(),
                self.cursor() == old(self).cursor().at(self.cursor().pos),
                grammar::spaced(self.cursor()) == grammar::spaced(old(self).cursor()),
            decreases self.cursor().bytes.len() - self.cursor().pos,
        {
            match self.peek() {
                Ok(Some(b)) => {
                    if is_space(b) {
                        self.eat_char();
                    } else {
                        return Ok(Some(b));
                    }
                },
                other => {
                    return other;
                },
            }
        }
    }

    /// Skips white space and makes sure that nothing follows it. To be called
    /// once a value has been read to its end.
    pub fn end(&mut self) -> (r: Result<()>)
        requires
            old(self).cursor().valid(),
        ensures
            Self::steps(*old(self), *final(self), r, grammar::end(old(self).cursor())),
            final(self).cursor().pos == grammar::spaced(old(self).cursor()).pos,
    {
        match self.parse_whitespace() {
            Ok(Some(_)) => Err(self.peek_error(ErrorCode::TrailingCharacters)),
            Ok(None) => Ok(()),
            Err(e) => Err(e),
        }
    }

    /// Reads the letters of `ident`.
    pub fn parse_ident(&mut self, ident: &[u8]) -> (r: Result<()>)
        requires
            old(self).cursor().valid(),
        ensures
            Self::steps(*old(self), *final(self), r, grammar::ident(old(self).cursor(), ident@, 0)),
    {
        let mut k: usize = 0;
        while k < ident.len()
            invariant
                k <= ident@.len(),
                self.cursor().valid(),
                self.depth() == old(self).depth(),
                self.cursor() == old(self).cursor().at(self.cursor().pos),
                grammar::ident(self.cursor(), ident@, k as int) == grammar::ident(
                    old(self).cursor(),
                    ident@,
                    0,
                ),
            decreases ident@.len() - k,
        {
            let b: Option<u8> = match self.next_char() {
                Ok(b) => b,
                Err(e) => return Err(e),
            };
            if b != Some(ident[k]) {
                return Err(self.error(ErrorCode::ExpectedSomeIdent));
            }
            k = k + 1;
        }
        Ok(())
    }

    /// Reads the byte `b` behind white space; fails with `other` if another
    /// byte stands there, with `eof` if none does.
    fn expect(&mut self, b: u8, other: ErrorCode, eof: ErrorCode) -> (r: Result<()>)
        requires
            old(self).cursor().valid(),
        ensures
            Self::steps(
                *old(self),
                *final(self),
                r,
                grammar::expect(old(self).cursor(), b, other, eof),
            ),
    {
        match self.parse_whitespace() {
            Ok(Some(c)) => {
                if c == b {
                    self.eat_char();
                    Ok(())
                } else {
                    Err(self.peek_error(other))
                }
            },
            Ok(None) => Err(self.peek_error(eof)),
            Err(e) => Err(e),
        }
    }

    /// Reads an opening bracket, which was looked at, and takes one level of
    /// nesting for what stands behind it. Where that was the last level, the
    /// bracket stays.
    pub fn enter(&mut self) -> (r: Result<()>)
        requires
            old(self).cursor().valid(),
            old(self).peeked(),
            !old(self).cursor().spent(),
            old(self).depth() >= 1,
        ensures
            outcome::settles(
                old(self).cursor(),
                final(self).cursor(),
                r,
                grammar::open(old(self).cursor(), old(self).depth(), ()),
            ),
            final(self).depth() == old(self).depth() - 1,
    {
        self.remaining_depth = self.remaining_depth - 1;
        if self.remaining_depth == 0 {
            return Err(self.peek_error(ErrorCode::RecursionLimitExceeded));
        }
        self.eat_char();
        Ok(())
    }

    /// Gives back a level of nesting.
    pub fn leave(&mut self)
        requires
            old(self).depth() < u8::MAX,
        ensures
            final(self).cursor() == old(self).cursor(),
            final(self).depth() == old(self).depth() + 1,
    {
        self.remaining_depth = self.remaining_depth + 1;
    }

    /// Reads a string from behind its opening quote.
    pub fn parse_str(&mut self) -> (r: Result<Reference<&'de str, String>>)
        requires
            old(self).cursor().valid(),
        ensures
            outcome::settles_as(
                old(self).cursor(),
                final(self).cursor(),
                r,
                |v: Reference<&'de str, String>| v.text(),
                string::text(old(self).cursor()),
            ),
            final(self).depth() == old(self).depth(),
    {
        string::parse_str(&mut self.read)
    }

    /// Reads a string from behind its opening quote as bytes, which may hold
    /// control characters and need not be UTF-8.
    pub fn parse_str_raw(&mut self) -> (r: Result<Reference<&'de [u8], Vec<u8>>>)
        requires
            old(self).cursor().valid(),
        ensures
            outcome::settles_as(
                old(self).cursor(),
                final(self).cursor(),
                r,
                |v: Reference<&'de [u8], Vec<u8>>| v.bytes(),
                string::raw_string(old(self).cursor(), false),
            ),
            final(self).depth() == old(self).depth(),
    {
        string::parse_str_raw(&mut self.read)
    }

    /// Reads the colon between a key and its value.
    pub fn parse_object_colon(&mut self) -> (r: Result<()>)
        requires
            old(self).cursor().valid(),
        ensures
            Self::steps(*old(self), *final(self), r, grammar::object_colon(old(self).cursor())),
    {
        self.expect(COLON, ErrorCode::ExpectedColon, ErrorCode::EofWhileParsingObject)
    }

    /// Reads the end of an array.
    pub fn end_seq(&mut self) -> (r: Result<()>)
        requires
            old(self).cursor().valid(),
        ensures
            Self::steps(*old(self), *final(self), r, grammar::end_seq(old(self).cursor())),
    {
        self.expect(CLOSE_BRACKET, ErrorCode::TrailingCharacters, ErrorCode::EofWhileParsingList)
    }

    /// Reads the end of an object.
    pub fn end_map(&mut self) -> (r: Result<()>)
        requires
            old(self).cursor().valid(),
        ensures
            Self::steps(*old(self), *final(self), r, grammar::end_map(old(self).cursor())),
    {
        self.expect(CLOSE_BRACE, ErrorCode::TrailingCharacters, ErrorCode::EofWhileParsingObject)
    }
}

/// Whether `a * 10 + b` exceeds `max`.
fn overflows_u64(a: u64, b: u64, max: u64) -> (r: bool)
    requires
        b < 10,
    ensures
        r == (a * 10 + b > max),
{
    a >= max / 10 && (a > max / 10 || b > max % 10)
}

/// The `i32` nearest to an integer.
fn clamp_i32(n: i64) -> (r: i32)
    ensures
        r == number::clamp(n as int),
{
    if n > i32::MAX as i64 {
        i32::MAX
    } else if n < i32::MIN as i64 {
        i32::MIN
    } else {
        n as i32
    }
}

/// `start` moved by a number of digits, up or down, as far as an `i32` goes.
fn shift_exponent(start: i32, digits: usize, up: bool) -> (r: i32)
    ensures
        r == number::clamp(
            if up {
                start + digits
            } else {
                start - digits
            },
        ),
{
    let digits: i64 = if digits as u64 > 0x1_0000_0000 {
        0x1_0000_0000
    } else {
        digits as i64
    };
    clamp_i32(
        if up {
            start as i64 + digits
        } else {
            start as i64 - digits
        },
    )
}

impl<'de, R: Read<'de>> Deserializer<R> {
    /// Reads digits behind those that gave `start`, as long as the number does
    /// not exceed `max`. Gives the number and the byte behind it, zero at the
    /// end of the input.
    fn parse_digits(&mut self, start: u64, max: u64) -> (r: Result<(u64, u8)>)
        requires
            old(self).cursor().valid(),
            start <= max,
        ensures
            ({
                let c = old(self).cursor();
                let (n, j) = number::fold_digits(c.bytes, c.pos, start as nat, max as nat);
                Self::steps(
                    *old(self),
                    *final(self),
                    r,
                    outcome::look(c.at(j)).map(|b: Option<u8>| (n as u64, outcome::or_null(b))),
                )
            }),
            r is Ok ==> final(self).peeked(),
    {
        let mut acc: u64 = start;
        loop
            invariant
                old(self).cursor().valid(),
                self.cursor().valid(),
                self.depth() == old(self).depth(),
                self.cursor() == old(self).cursor().at(self.cursor().pos),
                acc <= max,
                number::fold_digits(
                    self.cursor().bytes,
                    self.cursor().pos,
                    acc as nat,
                    max as nat,
                ) == number::fold_digits(
                    old(self).cursor().bytes,
                    old(self).cursor().pos,
                    start as nat,
                    max as nat,
                ),
            decreases self.cursor().bytes.len() - self.cursor().pos,
        {
            let b: u8 = match self.peek_or_null() {
                Ok(b) => b,
                Err(e) => return Err(e),
            };
            if !is_digit(b) {
                return Ok((acc, b));
            }
            let digit: u64 = (b - ZERO) as u64;
            // The number stays an integer as long as it can.
            if overflows_u64(acc, digit, max) {
                return Ok((acc, b));
            }
            self.eat_char();
            acc = acc * 10 + digit;
        }
    }

    /// Consumes digits and gives the byte behind them, zero at the end of the
    /// input.
    fn skip_digits(&mut self) -> (r: Result<u8>)
        requires
            old(self).cursor().valid(),
        ensures
            Self::steps(
                *old(self),
                *final(self),
                r,
                outcome::look(
                    old(self).cursor().at(
                        number::digits_end(old(self).cursor().bytes, old(self).cursor().pos),
                    ),
                ).map(|b: Option<u8>| outcome::or_null(b)),
            ),
            r is Ok ==> final(self).peeked(),
    {
        loop
            invariant
                old(self).cursor().valid(),
                self.cursor().valid(),
                self.depth() == old(self).depth(),
                self.cursor() == old(self).cursor().at(self.cursor().pos),
                number::digits_end(self.cursor().bytes, self.cursor().pos) == number::digits_end(
                    old(self).cursor().bytes,
                    old(self).cursor().pos,
                ),
            decreases self.cursor().bytes.len() - self.cursor().pos,
        {
            match self.peek_or_null() {
                Ok(b) => {
                    if is_digit(b) {
                        self.eat_char();
                    } else {
                        return Ok(b);
                    }
                },
                Err(e) => return Err(e),
            }
        }
    }

    /// The number made of these parts, unless it is beyond every finite double.
    pub fn number_from_parts(
        &mut self,
        positive: bool,
        significand: u64,
        exponent: i32,
    ) -> (r: Result<Number>)
        requires
            old(self).cursor().valid(),
        ensures
            Self::steps(
                *old(self),
                *final(self),
                r,
                number::from_parts(
                    old(self).cursor(),
                    positive,
                    significand as nat,
                    exponent as int,
                ),
            ),
    {
        if range::is_overflow(significand, exponent) {
            Err(self.error(ErrorCode::NumberOutOfRange))
        } else {
            Ok(Number::Float(Decimal { positive, significand, exponent }))
        }
    }

    /// Ends a number whose exponent is too large to be counted.
    pub fn parse_exponent_overflow(
        &mut self,
        positive: bool,
        significand: u64,
        positive_exponent: bool,
    ) -> (r: Result<Number>)
        requires
            old(self).cursor().valid(),
        ensures
            Self::steps(
                *old(self),
                *final(self),
                r,
                number::exponent_overflow(
                    old(self).cursor(),
                    positive,
                    significand as nat,
                    positive_exponent,
                ),
            ),
    {
        // An error, where the number would be infinite.
        if significand != 0 && positive_exponent {
            return Err(self.error(ErrorCode::NumberOutOfRange));
        }
        match self.skip_digits() {
            Ok(_) => Ok(Number::Float(Decimal { positive, significand: 0, exponent: 0 })),
            Err(e) => Err(e),
        }
    }

    /// Reads an exponent, from the exponent mark on, and ends the number.
    pub fn parse_exponent(
        &mut self,
        positive: bool,
        significand: u64,
        starting_exp: i32,
    ) -> (r: Result<Number>)
        requires
            old(self).cursor().valid(),
            old(self).peeked(),
            number::faces_exponent(old(self).cursor()),
        ensures
            Self::steps(
                *old(self),
                *final(self),
                r,
                number::exponent(
                    old(self).cursor(),
                    positive,
                    significand as nat,
                    starting_exp as int,
                ),
            ),
    {
        proof {
            reveal(number::exponent);
            reveal(number::exponent_digits);
        }
        self.eat_char();
        let b: u8 = match self.peek_or_null() {
            Ok(b) => b,
            Err(e) => return Err(e),
        };
        let mut positive_exponent: bool = true;
        if b == PLUS {
            self.eat_char();
        } else if b == MINUS {
            self.eat_char();
            positive_exponent = false;
        }
        let ghost d = self.cursor();
        // A digit has to follow.
        let b: u8 = match self.next_char_or_null() {
            Ok(b) => b,
            Err(e) => return Err(e),
        };
        if !is_digit(b) {
            return Err(self.error(ErrorCode::InvalidNumber));
        }
        proof {
            number::lemma_fold_digits_bounds(
                d.bytes,
                d.pos + 1,
                ascii::digit_value(b),
                i32::MAX as nat,
            );
        }
        let (exp, b): (u64, u8) = match self.parse_digits((b - ZERO) as u64, i32::MAX as u64) {
            Ok(v) => v,
            Err(e) => return Err(e),
        };
        if is_digit(b) {
            self.eat_char();
            return self.parse_exponent_overflow(positive, significand, positive_exponent);
        }
        let final_exp: i64 = if positive_exponent {
            starting_exp as i64 + exp as i64
        } else {
            starting_exp as i64 - exp as i64
        };
        self.number_from_parts(positive, significand, clamp_i32(final_exp))
    }

    /// Reads a fraction, from the decimal point on, and what follows it.
    pub fn parse_decimal(
        &mut self,
        positive: bool,
        significand: u64,
        starting_exp: i32,
    ) -> (r: Result<Number>)
        requires
            old(self).cursor().valid(),
            old(self).peeked(),
            number::faces(old(self).cursor(), DOT),
        ensures
            Self::steps(
                *old(self),
                *final(self),
                r,
                number::decimal(
                    old(self).cursor(),
                    positive,
                    significand as nat,
                    starting_exp as int,
                ),
            ),
    {
        proof {
            reveal(number::decimal);
        }
        self.eat_char();
        let ghost c = self.cursor();
        proof {
            number::lemma_fold_digits_bounds(
                c.bytes,
                c.pos,
                significand as nat,
                u64::MAX as nat,
            );
        }
        let start: usize = self.byte_offset();
        let (significand, b): (u64, u8) = match self.parse_digits(significand, u64::MAX) {
            Ok(v) => v,
            Err(e) => return Err(e),
        };
        let exponent: i32 = shift_exponent(starting_exp, self.byte_offset() - start, false);
        proof {
            number::lemma_digits_end_bounds(c.bytes, self.cursor().pos);
        }
        // Further digits would not fit; ignore them.
        let b: u8 = match self.skip_digits() {
            Ok(b) => b,
            Err(e) => return Err(e),
        };
        if self.byte_offset() == start {
            return Err(self.peek_error(ErrorCode::InvalidNumber));
        }
        if is_exponent_mark(b) {
            self.parse_exponent(positive, significand, exponent)
        } else {
            self.number_from_parts(positive, significand, exponent)
        }
    }

    /// Reads the digits of an integer that do not fit its significand, and
    /// what follows them.
    pub fn parse_long_integer(&mut self, positive: bool, significand: u64, starting_exp: i32) -> (r:
        Result<Number>)
        requires
            old(self).cursor().valid(),
        ensures
            Self::steps(
                *old(self),
                *final(self),
                r,
                number::long_integer(
                    old(self).cursor(),
                    positive,
                    significand as nat,
                    starting_exp as int,
                ),
            ),
    {
        proof {
            reveal(number::long_integer);
        }
        let start: usize = self.byte_offset();
        proof {
            number::lemma_digits_end_bounds(self.cursor().bytes, self.cursor().pos);
        }
        let b: u8 = match self.skip_digits() {
            Ok(b) => b,
            Err(e) => return Err(e),
        };
        let exponent: i32 = shift_exponent(starting_exp, self.byte_offset() - start, true);
        if b == DOT {
            self.parse_decimal(positive, significand, exponent)
        } else if is_exponent_mark(b) {
            self.parse_exponent(positive, significand, exponent)
        } else {
            self.number_from_parts(positive, significand, exponent)
        }
    }

    /// Reads what follows an integer part that fits its significand.
    pub fn parse_number(&mut self, positive: bool, significand: u64) -> (r: Result<Number>)
        requires
            old(self).cursor().valid(),
        ensures
            Self::steps(
                *old(self),
                *final(self),
                r,
                number::number(old(self).cursor(), positive, significand as nat),
            ),
    {
        proof {
            reveal(number::number);
        }
        let b: u8 = match self.peek_or_null() {
            Ok(b) => b,
            Err(e) => return Err(e),
        };
        if b == DOT {
            self.parse_decimal(positive, significand, 0)
        } else if is_exponent_mark(b) {
            self.parse_exponent(positive, significand, 0)
        } else if positive {
            Ok(Number::PosInt(significand))
        } else if significand < 0x8000_0000_0000_0000 {
            Ok(Number::NegInt(-(significand as i64)))
        } else if significand == 0x8000_0000_0000_0000 {
            Ok(Number::NegInt(i64::MIN))
        } else {
            // Too far below zero for an integer.
            Ok(Number::Float(Decimal { positive, significand, exponent: 0 }))
        }
    }

    /// Reads a number, from behind its minus sign if it has one.
    pub fn parse_integer(&mut self, positive: bool) -> (r: Result<Number>)
        requires
            old(self).cursor().valid(),
        ensures
            Self::steps(
                *old(self),
                *final(self),
                r,
                number::integer(old(self).cursor(), positive),
            ),
    {
        proof {
            reveal(number::integer);
        }
        let ghost c = self.cursor();
        let b: u8 = match self.next_char_or_null() {
            Ok(b) => b,
            Err(e) => return Err(e),
        };
        if b == ZERO {
            // There can be only one leading zero.
            let b: u8 = match self.peek_or_null() {
                Ok(b) => b,
                Err(e) => return Err(e),
            };
            if is_digit(b) {
                Err(self.peek_error(ErrorCode::InvalidNumber))
            } else {
                self.parse_number(positive, 0)
            }
        } else if is_digit(b) {
            proof {
                number::lemma_fold_digits_bounds(
                    c.bytes,
                    c.pos + 1,
                    ascii::digit_value(b),
                    u64::MAX as nat,
                );
            }
            let (significand, b): (u64, u8) = match self.parse_digits(
                (b - ZERO) as u64,
                u64::MAX,
            ) {
                Ok(v) => v,
                Err(e) => return Err(e),
            };
            if is_digit(b) {
                self.parse_long_integer(positive, significand, 0)
            } else {
                self.parse_number(positive, significand)
            }
        } else {
            Err(self.error(ErrorCode::InvalidNumber))
        }
    }
}

} // verus!
