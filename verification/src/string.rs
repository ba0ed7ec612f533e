//! String literals: what stands between the quotes, and the bytes it means.
use crate::ascii::{
    is_control, is_digit, BACKSLASH, BACKSPACE, CARRIAGE_RETURN, FORM_FEED, LINE_FEED, LOWER_A,
    LOWER_B, LOWER_F, LOWER_N, LOWER_R, LOWER_T, LOWER_U, QUOTE, SLASH, TAB, UPPER_A, UPPER_F, ZERO,
};
use crate::error::{Error, ErrorCode, Result};
use crate::outcome::{self, Outcome};
use crate::read::{self, Cursor, Position, Read, Reference};
use crate::{ascii, progress};
use vstd::prelude::*;
use vstd::utf8::*;

verus! {

/// The content of a string literal.
pub struct Literal {
    /// The bytes it means, escape sequences replaced.
    pub bytes: Seq<u8>,
    /// Whether it has an escape sequence.
    pub escaped: bool,
}

/// The bytes of a string literal.
pub struct Bytes {
    /// What they are, escape sequences replaced.
    pub bytes: Seq<u8>,
    /// Whether they are a piece of the input.
    pub borrowed: bool,
}

/// The text of a string literal.
pub struct Text {
    /// Its characters.
    pub chars: Seq<char>,
    /// Whether it is a piece of the input.
    pub borrowed: bool,
}

/// The ending of a step that needs a byte of a string and finds none.
pub open spec fn string_eof<T>(c: Cursor) -> Outcome<T> {
    if c.broken() {
        outcome::broken()
    } else {
        Outcome::Fail { code: ErrorCode::EofWhileParsingString, place: c.pos, pos: c.pos }
    }
}

/// A failure that points at the byte just consumed.
pub open spec fn fail_behind<T>(c: Cursor, code: ErrorCode) -> Outcome<T> {
    Outcome::Fail { code, place: c.pos + 1, pos: c.pos + 1 }
}

/// `count` hexadecimal digits behind those that gave `acc`.
pub open spec fn hex_digits(c: Cursor, count: nat, acc: nat) -> Outcome<nat>
    decreases count,
{
    if count == 0 {
        Outcome::Done { value: acc, pos: c.pos }
    } else if c.spent() {
        string_eof(c)
    } else {
        match ascii::hex_value(c.bytes[c.pos]) {
            Some(v) => hex_digits(c.at(c.pos + 1), (count - 1) as nat, acc * 16 + v),
            None => fail_behind(c, ErrorCode::InvalidEscape),
        }
    }
}

/// A UTF-16 unit that begins a surrogate pair.
pub open spec fn is_leading_surrogate(n: nat) -> bool {
    0xD800 <= n <= 0xDBFF
}

/// A UTF-16 unit that ends a surrogate pair.
pub open spec fn is_trailing_surrogate(n: nat) -> bool {
    0xDC00 <= n <= 0xDFFF
}

/// The scalar value that a surrogate pair stands for.
pub open spec fn surrogate_pair(n1: nat, n2: nat) -> nat {
    ((n1 - 0xD800) * 0x400 + (n2 - 0xDC00) + 0x1_0000) as nat
}

/// The byte `b`, or else a failure for want of the second half of a pair.
pub open spec fn pair_byte(c: Cursor, b: u8) -> Outcome<()> {
    if c.spent() {
        string_eof(c)
    } else if c.bytes[c.pos] == b {
        Outcome::Done { value: (), pos: c.pos + 1 }
    } else {
        fail_behind(c, ErrorCode::UnexpectedEndOfHexEscape)
    }
}

/// The second half of the pair that `n1` begins, and what the pair means.
pub open spec fn pair_tail(c: Cursor, n1: nat) -> Outcome<Seq<u8>> {
    pair_byte(c, BACKSLASH).and_then(
        |_u: (), p: int|
            pair_byte(c.at(p), LOWER_U).and_then(
                |_v: (), q: int|
                    hex_digits(c.at(q), 4, 0).and_then(
                        |n2: nat, r: int|
                            if is_trailing_surrogate(n2) {
                                Outcome::Done {
                                    value: encode_scalar(surrogate_pair(n1, n2) as u32),
                                    pos: r,
                                }
                            } else {
                                Outcome::Fail {
                                    code: ErrorCode::LoneLeadingSurrogateInHexEscape,
                                    place: r,
                                    pos: r,
                                }
                            },
                    ),
            ),
    )
}

/// The digits of a `\u` escape sequence and what the sequence means.
pub open spec fn unicode_escape(c: Cursor) -> Outcome<Seq<u8>> {
    hex_digits(c, 4, 0).and_then(
        |n: nat, p: int|
            if is_trailing_surrogate(n) {
                Outcome::Fail {
                    code: ErrorCode::LoneLeadingSurrogateInHexEscape,
                    place: p,
                    pos: p,
                }
            } else if is_leading_surrogate(n) {
                pair_tail(c.at(p), n)
            } else {
                Outcome::Done { value: encode_scalar(n as u32), pos: p }
            },
    )
}

/// What a one-letter escape sequence means.
pub open spec fn simple_escape(b: u8) -> Option<u8> {
    if b == QUOTE || b == BACKSLASH || b == SLASH {
        Some(b)
    } else if b == LOWER_B {
        Some(BACKSPACE)
    } else if b == LOWER_F {
        Some(FORM_FEED)
    } else if b == LOWER_N {
        Some(LINE_FEED)
    } else if b == LOWER_R {
        Some(CARRIAGE_RETURN)
    } else if b == LOWER_T {
        Some(TAB)
    } else {
        None
    }
}

/// What follows a backslash, and the bytes it means.
pub open spec fn escape(c: Cursor) -> Outcome<Seq<u8>> {
    if c.spent() {
        string_eof(c)
    } else if c.bytes[c.pos] == LOWER_U {
        unicode_escape(c.at(c.pos + 1))
    } else {
        match simple_escape(c.bytes[c.pos]) {
            Some(b) => Outcome::Done { value: seq![b], pos: c.pos + 1 },
            None => fail_behind(c, ErrorCode::InvalidEscape),
        }
    }
}

/// The rest of a string literal of which `sofar` has been read, up to and
/// including the closing quote. A `checked` literal may not hold control
/// characters.
pub open spec fn literal(c: Cursor, checked: bool, sofar: Literal) -> Outcome<Literal>
    decreases c.bytes.len() - c.pos,
{
    if c.spent() {
        string_eof(c)
    } else {
        let b = c.bytes[c.pos];
        if b == QUOTE {
            Outcome::Done { value: sofar, pos: c.pos + 1 }
        } else if b == BACKSLASH {
            match escape(c.at(c.pos + 1)) {
                Outcome::Done { value, pos } if c.pos < pos <= c.bytes.len() => literal(
                    c.at(pos),
                    checked,
                    Literal { bytes: sofar.bytes + value, escaped: true },
                ),
                o => o.recast(),
            }
        } else if checked && is_control(b) {
            fail_behind(c, ErrorCode::InvalidUnicodeCodePoint)
        } else {
            literal(
                c.at(c.pos + 1),
                checked,
                Literal { bytes: sofar.bytes.push(b), escaped: sofar.escaped },
            )
        }
    }
}

/// A literal of which nothing has been read.
pub open spec fn no_literal() -> Literal {
    Literal { bytes: Seq::empty(), escaped: false }
}

/// The bytes of a string, from behind its opening quote.
#[verifier::opaque]
pub open spec fn raw_string(c: Cursor, checked: bool) -> Outcome<Bytes> {
    literal(c, checked, no_literal()).map(
        |l: Literal| Bytes { bytes: l.bytes, borrowed: c.lends && !l.escaped },
    )
}

/// A string, from behind its opening quote.
#[verifier::opaque]
pub open spec fn text(c: Cursor) -> Outcome<Text> {
    raw_string(c, true).and_then(
        |b: Bytes, p: int|
            if valid_utf8(b.bytes) {
                Outcome::Done {
                    value: Text { chars: decode_utf8(b.bytes), borrowed: b.borrowed },
                    pos: p,
                }
            } else {
                Outcome::Fail { code: ErrorCode::InvalidUnicodeCodePoint, place: p, pos: p }
            },
    )
}

impl<'b> Reference<&'b [u8], Vec<u8>> {
    /// The bytes, and whether they are borrowed.
    pub open spec fn bytes(self) -> Bytes {
        match self {
            Reference::Borrowed(b) => Bytes { bytes: b@, borrowed: true },
            Reference::Copied(b) => Bytes { bytes: b@, borrowed: false },
        }
    }
}

impl<'b> Reference<&'b str, String> {
    /// The text, and whether it is borrowed.
    pub open spec fn text(self) -> Text {
        match self {
            Reference::Borrowed(s) => Text { chars: s@, borrowed: true },
            Reference::Copied(s) => Text { chars: s@, borrowed: false },
        }
    }
}

/// An error at the byte consumed last.
fn error_behind<'de, R: Read<'de>>(read: &R, code: ErrorCode) -> (r: Error)
    requires
        read.view().valid(),
    ensures
        r@.code == code,
        (r@.line, r@.column) == read::line_column(read.view().bytes, read.view().pos),
{
    let pos: Position = read.position();
    Error::syntax(code, pos.line, pos.column)
}

/// A byte of a string.
pub open spec fn string_byte(c: Cursor) -> Outcome<u8> {
    if c.spent() {
        string_eof(c)
    } else {
        Outcome::Done { value: c.bytes[c.pos], pos: c.pos + 1 }
    }
}

/// Consumes a byte of a string, which has to be there.
fn next_or_eof<'de, R: Read<'de>>(read: &mut R) -> (r: Result<u8>)
    requires
        old(read).view().valid(),
    ensures
        outcome::settles(old(read).view(), final(read).view(), r, string_byte(old(read).view())),
{
    match read.next() {
        Ok(Some(b)) => Ok(b),
        Ok(None) => Err(error_behind(read, ErrorCode::EofWhileParsingString)),
        Err(e) => Err(Error::io(e)),
    }
}

/// What a hexadecimal digit counts.
fn hex_digit(b: u8) -> (r: Option<u16>)
    ensures
        match r {
            Some(v) => ascii::hex_value(b) == Some(v as nat) && v < 16,
            None => ascii::hex_value(b) is None,
        },
{
    if is_digit(b) {
        Some((b - ZERO) as u16)
    } else if LOWER_A <= b && b <= LOWER_F {
        Some((b - LOWER_A) as u16 + 10)
    } else if UPPER_A <= b && b <= UPPER_F {
        Some((b - UPPER_A) as u16 + 10)
    } else {
        None
    }
}

/// Reads the four digits of a `\u` escape sequence.
fn decode_hex_escape<'de, R: Read<'de>>(read: &mut R) -> (r: Result<u16>)
    requires
        old(read).view().valid(),
    ensures
        outcome::settles_as(
            old(read).view(),
            final(read).view(),
            r,
            |v: u16| v as nat,
            hex_digits(old(read).view(), 4, 0),
        ),
{
    let ghost start = read.view();
    let mut n: u16 = 0;
    let mut i: u16 = 0;
    while i < 4
        invariant
            start == old(read).view(),
            i <= 4,
            i == 0 ==> n == 0,
            i == 1 ==> n < 0x10,
            i == 2 ==> n < 0x100,
            i == 3 ==> n < 0x1000,
            read.view().valid(),
            read.view() == start.at(read.view().pos),
            hex_digits(start, 4, 0) == hex_digits(read.view(), (4 - i) as nat, n as nat),
        decreases 4 - i,
    {
        let b: u8 = match next_or_eof(read) {
            Ok(b) => b,
            Err(e) => return Err(e),
        };
        match hex_digit(b) {
            Some(v) => {
                n = n * 16 + v;
            },
            None => return Err(error_behind(read, ErrorCode::InvalidEscape)),
        }
        i = i + 1;
    }
    Ok(n)
}

/// Appends the UTF-8 encoding of a scalar value.
fn push_scalar(out: &mut Vec<u8>, n: u32)
    requires
        is_scalar(n),
    ensures
        final(out)@ == old(out)@ + encode_scalar(n),
{
    if n < 0x80 {
        out.push((n & 0x7F) as u8);
    } else if n < 0x800 {
        out.push(0xC0 | ((n >> 6) & 0x1F) as u8);
        out.push(0x80 | (n & 0x3F) as u8);
    } else if n < 0x1_0000 {
        out.push(0xE0 | ((n >> 12) & 0x0F) as u8);
        out.push(0x80 | ((n >> 6) & 0x3F) as u8);
        out.push(0x80 | (n & 0x3F) as u8);
    } else {
        out.push(0xF0 | ((n >> 18) & 0x7) as u8);
        out.push(0x80 | ((n >> 12) & 0x3F) as u8);
        out.push(0x80 | ((n >> 6) & 0x3F) as u8);
        out.push(0x80 | (n & 0x3F) as u8);
    }
}

/// Reads the second half of the surrogate pair that `n1` begins, and appends
/// what the pair means.
fn parse_pair_tail<'de, R: Read<'de>>(read: &mut R, n1: u16, out: &mut Vec<u8>) -> (r: Result<()>)
    requires
        old(read).view().valid(),
        is_leading_surrogate(n1 as nat),
    ensures
        outcome::settles(
            old(read).view(),
            final(read).view(),
            r,
            pair_tail(old(read).view(), n1 as nat).map(|s: Seq<u8>| ()),
        ),
        pair_tail(old(read).view(), n1 as nat) matches Outcome::Done { value, .. }
            ==> final(out)@ == old(out)@ + value,
{
    let b: u8 = match next_or_eof(read) {
        Ok(b) => b,
        Err(e) => return Err(e),
    };
    if b != BACKSLASH {
        return Err(error_behind(read, ErrorCode::UnexpectedEndOfHexEscape));
    }
    let b: u8 = match next_or_eof(read) {
        Ok(b) => b,
        Err(e) => return Err(e),
    };
    if b != LOWER_U {
        return Err(error_behind(read, ErrorCode::UnexpectedEndOfHexEscape));
    }
    let n2: u16 = match decode_hex_escape(read) {
        Ok(n) => n,
        Err(e) => return Err(e),
    };
    if n2 < 0xDC00 || n2 > 0xDFFF {
        return Err(error_behind(read, ErrorCode::LoneLeadingSurrogateInHexEscape));
    }
    let n: u32 = (n1 - 0xD800) as u32 * 0x400 + (n2 - 0xDC00) as u32 + 0x1_0000;
    push_scalar(out, n);
    Ok(())
}

/// Reads what follows a backslash, and appends the bytes it means.
fn parse_escape<'de, R: Read<'de>>(read: &mut R, out: &mut Vec<u8>) -> (r: Result<()>)
    requires
        old(read).view().valid(),
    ensures
        outcome::settles(
            old(read).view(),
            final(read).view(),
            r,
            escape(old(read).view()).map(|s: Seq<u8>| ()),
        ),
        escape(old(read).view()) matches Outcome::Done { value, .. }
            ==> final(out)@ == old(out)@ + value,
{
    let b: u8 = match next_or_eof(read) {
        Ok(b) => b,
        Err(e) => return Err(e),
    };
    if b == QUOTE || b == BACKSLASH || b == SLASH {
        out.push(b);
    } else if b == LOWER_B {
        out.push(BACKSPACE);
    } else if b == LOWER_F {
        out.push(FORM_FEED);
    } else if b == LOWER_N {
        out.push(LINE_FEED);
    } else if b == LOWER_R {
        out.push(CARRIAGE_RETURN);
    } else if b == LOWER_T {
        out.push(TAB);
    } else if b == LOWER_U {
        let n: u16 = match decode_hex_escape(read) {
            Ok(n) => n,
            Err(e) => return Err(e),
        };
        if 0xDC00 <= n && n <= 0xDFFF {
            return Err(error_behind(read, ErrorCode::LoneLeadingSurrogateInHexEscape));
        }
        if 0xD800 <= n && n <= 0xDBFF {
            return parse_pair_tail(read, n, out);
        }
        push_scalar(out, n as u32);
    } else {
        return Err(error_behind(read, ErrorCode::InvalidEscape));
    }
    Ok(())
}

/// Reads a string from behind its opening quote and gives its bytes.
fn parse_str_bytes<'de, R: Read<'de>>(read: &mut R, checked: bool) -> (r: Result<
    Reference<&'de [u8], Vec<u8>>,
>)
    requires
        old(read).view().valid(),
    ensures
        outcome::settles_as(
            old(read).view(),
            final(read).view(),
            r,
            |v: Reference<&'de [u8], Vec<u8>>| v.bytes(),
            raw_string(old(read).view(), checked),
        ),
{
    let start: usize = read.byte_offset();
    let mut scratch: Vec<u8> = Vec::new();
    let mut escaped: bool = false;
    let ghost c = read.view();
    loop
        invariant
            c == old(read).view(),
            c.valid(),
            start == c.pos,
            read.view().valid(),
            read.view() == c.at(read.view().pos),
            start <= read.view().pos,
            !escaped ==> scratch@ == c.bytes.subrange(start as int, read.view().pos),
            literal(c, checked, no_literal()) == literal(
                read.view(),
                checked,
                Literal { bytes: scratch@, escaped },
            ),
        decreases c.bytes.len() - read.view().pos,
    {
        proof {
            reveal(raw_string);
        }
        let b: u8 = match next_or_eof(read) {
            Ok(b) => b,
            Err(e) => return Err(e),
        };
        if b == QUOTE {
            if !escaped {
                let end: usize = read.byte_offset() - 1;
                if let Some(piece) = read.lend(start, end) {
                    return Ok(Reference::Borrowed(piece));
                }
            }
            return Ok(Reference::Copied(scratch));
        } else if b == BACKSLASH {
            proof {
                progress::lemma_escape(read.view());
            }
            match parse_escape(read, &mut scratch) {
                Ok(_) => {},
                Err(e) => return Err(e),
            }
            escaped = true;
        } else if checked && is_control(b) {
            return Err(error_behind(read, ErrorCode::InvalidUnicodeCodePoint));
        } else {
            scratch.push(b);
        }
    }
}

/// The text that `bytes` encode, by `core::str::from_utf8`. That function
/// documents that it gives a string slice over the same bytes if they are
/// UTF-8, and an error if they are not.
#[verifier::external_body]
fn from_utf8<'a>(bytes: &'a [u8]) -> (r: Option<&'a str>)
    ensures
        r is Some <==> valid_utf8(bytes@),
        r matches Some(s) ==> encode_utf8(s@) == bytes@,
{
    core::str::from_utf8(bytes).ok()
}

/// Reads a string from behind its opening quote.
pub fn parse_str<'de, R: Read<'de>>(read: &mut R) -> (r: Result<Reference<&'de str, String>>)
    requires
        old(read).view().valid(),
    ensures
        outcome::settles_as(
            old(read).view(),
            final(read).view(),
            r,
            |v: Reference<&'de str, String>| v.text(),
            text(old(read).view()),
        ),
{
    proof {
        broadcast use encode_utf8_decode_utf8;

        reveal(text);
    }
    let bytes: Reference<&'de [u8], Vec<u8>> = match parse_str_bytes(read, true) {
        Ok(b) => b,
        Err(e) => return Err(e),
    };
    match bytes {
        Reference::Borrowed(b) => {
            if let Some(s) = from_utf8(b) {
                return Ok(Reference::Borrowed(s));
            }
        },
        Reference::Copied(v) => {
            if let Some(s) = from_utf8(v.as_slice()) {
                return Ok(Reference::Copied(s.to_owned()));
            }
        },
    }
    Err(error_behind(read, ErrorCode::InvalidUnicodeCodePoint))
}

/// Reads a string from behind its opening quote as bytes, which may hold
/// control characters and need not be UTF-8.
pub fn parse_str_raw<'de, R: Read<'de>>(read: &mut R) -> (r: Result<Reference<&'de [u8], Vec<u8>>>)
    requires
        old(read).view().valid(),
    ensures
        outcome::settles_as(
            old(read).view(),
            final(read).view(),
            r,
            |v: Reference<&'de [u8], Vec<u8>>| v.bytes(),
            raw_string(old(read).view(), false),
        ),
{
    parse_str_bytes(read, false)
}

} // verus!
