//! Laws of strings.
use crate::ascii::{is_control, BACKSLASH, LOWER_U, QUOTE};
use crate::error::ErrorCode;
use crate::outcome::Outcome;
use crate::read::Cursor;
use crate::string::{Bytes, Literal, Text};
use crate::value::Json;
use crate::{ascii, grammar, progress, string};
use vstd::prelude::*;
use vstd::utf8::*;

verus! {

/// Whether a byte means itself in a string.
pub open spec fn verbatim(b: u8, checked: bool) -> bool {
    b != 0x22 && b != 0x5c && !(checked && b < 0x20)
}

/// Bytes that mean themselves are taken over.
proof fn lemma_verbatim(c: Cursor, checked: bool, sofar: Literal, n: nat)
    requires
        c.valid(),
        c.pos + n <= c.bytes.len(),
        forall|k: int| c.pos <= k < c.pos + n ==> verbatim(#[trigger] c.bytes[k], checked),
    ensures
        string::literal(c, checked, sofar) == string::literal(
            c.at(c.pos + n),
            checked,
            Literal {
                bytes: sofar.bytes + c.bytes.subrange(c.pos, c.pos + n),
                escaped: sofar.escaped,
            },
        ),
    decreases n,
{
    if n > 0 {
        let next = Literal {
            bytes: sofar.bytes.push(c.bytes[c.pos]),
            escaped: sofar.escaped,
        };
        assert(verbatim(c.bytes[c.pos], checked));
        lemma_verbatim(c.at(c.pos + 1), checked, next, (n - 1) as nat);
        assert(next.bytes + c.bytes.subrange(c.pos + 1, c.pos + n) =~= sofar.bytes
            + c.bytes.subrange(c.pos, c.pos + n));
    } else {
        assert(sofar.bytes + c.bytes.subrange(c.pos, c.pos) =~= sofar.bytes);
        assert(c.at(c.pos + 0) == c);
    }
}

/// A string without quotes and backslashes is read as the bytes it consists
/// of. It is a piece of the input where the source lends those out.
pub proof fn law_verbatim_bytes(c: Cursor, s: Seq<u8>)
    requires
        c.valid(),
        c.pos == 0,
        c.bytes == s + seq![0x22u8],
        forall|k: int| 0 <= k < s.len() ==> verbatim(#[trigger] s[k], false),
    ensures
        string::raw_string(c, false) == (Outcome::Done {
            value: Bytes { bytes: s, borrowed: c.lends },
            pos: c.bytes.len() as int,
        }),
{
    reveal(string::raw_string);
    assert forall|k: int| 0 <= k < s.len() implies verbatim(#[trigger] c.bytes[k], false) by {
        assert(c.bytes[k] == s[k]);
    }
    lemma_verbatim(c, false, string::no_literal(), s.len());
    assert(string::no_literal().bytes + c.bytes.subrange(0, s.len() as int) =~= s);
    assert(c.bytes[s.len() as int] == QUOTE);
}

/// The same of text: characters that are neither quotes nor backslashes nor
/// control characters are read as they are.
pub proof fn law_verbatim_text(c: Cursor, s: Seq<char>, depth: int)
    requires
        c.valid(),
        c.pos == 0,
        c.bytes == seq![0x22u8] + encode_utf8(s) + seq![0x22u8],
        forall|k: int|
            0 <= k < encode_utf8(s).len() ==> verbatim(#[trigger] encode_utf8(s)[k], true),
    ensures
        grammar::token(c, depth) == (Outcome::Done {
            value: grammar::Token::String(Text { chars: s, borrowed: c.lends }),
            pos: c.bytes.len() as int,
        }),
        grammar::value(c, depth) == (Outcome::Done {
            value: Json::String(s),
            pos: c.bytes.len() as int,
        }),
{
    reveal(grammar::value);
    broadcast use {encode_utf8_valid_utf8, encode_utf8_decode_utf8};

    reveal(string::raw_string);
    reveal(string::text);
    let b = encode_utf8(s);
    let d = c.at(1);
    assert(c.bytes[0] == QUOTE);
    assert(grammar::spaced(c) == c);
    assert forall|k: int| 1 <= k < 1 + b.len() implies verbatim(#[trigger] c.bytes[k], true) by {
        assert(c.bytes[k] == b[k - 1]);
    }
    lemma_verbatim(d, true, string::no_literal(), b.len());
    assert(string::no_literal().bytes + c.bytes.subrange(1, 1 + b.len() as int) =~= b);
    assert(c.bytes[1 + b.len() as int] == QUOTE);
}

proof fn lemma_checked(c: Cursor, sofar: Literal)
    requires
        c.valid(),
    ensures
        match string::literal(c, true, sofar) {
            Outcome::Fail { code: ErrorCode::InvalidUnicodeCodePoint, .. } => true,
            o => string::literal(c, false, sofar) == o,
        },
    decreases c.bytes.len() - c.pos,
{
    if !c.spent() {
        let b = c.bytes[c.pos];
        let d = c.at(c.pos + 1);
        if b == BACKSLASH {
            progress::lemma_escape(d);
            if let Outcome::Done { value, pos } = string::escape(d) {
                lemma_checked(
                    c.at(pos),
                    Literal { bytes: sofar.bytes + value, escaped: true },
                );
            }
        } else if b != QUOTE {
            lemma_checked(
                d,
                Literal { bytes: sofar.bytes.push(b), escaped: sofar.escaped },
            );
        }
    }
}

/// Read as bytes, a string gives the encoding of what it gives as text, if it
/// gives text. A string that gives bytes is refused as text if they are not
/// UTF-8, and may be refused only because they are not, or because it holds a
/// control character; the error is the same. What is refused as bytes is
/// refused as text.
pub proof fn law_bytes_and_text(c: Cursor)
    requires
        c.valid(),
    ensures
        string::text(c) matches Outcome::Done { value, pos } ==> string::raw_string(c, false) == (
        Outcome::Done {
            value: Bytes { bytes: encode_utf8(value.chars), borrowed: value.borrowed },
            pos,
        }),
        string::raw_string(c, false) matches Outcome::Done { value, .. } ==> match string::text(c) {
            Outcome::Done { .. } => valid_utf8(value.bytes),
            Outcome::Fail { code, .. } => code is InvalidUnicodeCodePoint,
            _ => false,
        },
{
    broadcast use decode_utf8_encode_utf8;

    reveal(string::raw_string);
    reveal(string::text);
    lemma_checked(c, string::no_literal());
}

/// The two halves by which a character beyond the sixteen-bit range is
/// written stand for that character.
pub proof fn law_surrogate_pairs(n: nat)
    requires
        0x1_0000 <= n <= 0x10_FFFF,
    ensures
        ({
            let high = (0xD800 + (n - 0x1_0000) / 0x400) as nat;
            let low = (0xDC00 + (n - 0x1_0000) % 0x400) as nat;
            &&& string::is_leading_surrogate(high)
            &&& string::is_trailing_surrogate(low)
            &&& string::surrogate_pair(high, low) == n
        }),
{
}

/// Skipping a character that takes one byte leaves UTF-8.
proof fn lemma_skip_one(b: Seq<u8>, i: int)
    requires
        0 <= i < b.len(),
        valid_utf8(b.skip(i)),
        b[i] < 0x80,
    ensures
        valid_utf8(b.skip(i + 1)),
{
    assert(b.skip(i)[0] == b[i]);
    assert(pop_first_scalar(b.skip(i)) =~= b.skip(i + 1));
}

/// Hexadecimal digits take one byte each.
proof fn lemma_hex_digits(c: Cursor, count: nat, acc: nat)
    requires
        c.valid(),
        valid_utf8(c.bytes.skip(c.pos)),
        string::hex_digits(c, count, acc) is Done,
    ensures
        valid_utf8(c.bytes.skip(string::hex_digits(c, count, acc)->Done_pos)),
    decreases count,
{
    if count > 0 {
        let v = ascii::hex_value(c.bytes[c.pos])->0;
        lemma_skip_one(c.bytes, c.pos);
        lemma_hex_digits(c.at(c.pos + 1), (count - 1) as nat, acc * 16 + v);
    }
}

proof fn lemma_four_digits(c: Cursor)
    ensures
        string::hex_digits(c, 4, 0) matches Outcome::Done { value, .. } ==> value < 0x1_0000,
{
    reveal_with_fuel(string::hex_digits, 5);
}

/// The encoding of a character is UTF-8.
proof fn lemma_scalar(n: nat)
    requires
        n <= 0x10_FFFF,
        !(0xD800 <= n <= 0xDFFF),
    ensures
        valid_utf8(encode_scalar(n as u32)),
{
    broadcast use encode_utf8_valid_utf8;

    let ch = n as char;
    let s = seq![ch];
    assert(ch as u32 == n as u32);
    assert(s.drop_first() =~= Seq::empty());
    assert(encode_utf8(s.drop_first()) =~= Seq::empty());
    assert(encode_utf8(s) =~= encode_scalar(n as u32));
}

/// An escape sequence means UTF-8 and leaves UTF-8 behind it.
proof fn lemma_escape(c: Cursor)
    requires
        c.valid(),
        valid_utf8(c.bytes.skip(c.pos)),
        string::escape(c) is Done,
    ensures
        valid_utf8(string::escape(c)->Done_value),
        valid_utf8(c.bytes.skip(string::escape(c)->Done_pos)),
{
    lemma_skip_one(c.bytes, c.pos);
    let d = c.at(c.pos + 1);
    if c.bytes[c.pos] == LOWER_U {
        lemma_four_digits(d);
        lemma_hex_digits(d, 4, 0);
        progress::lemma_hex_digits(d, 4, 0);
        let n = string::hex_digits(d, 4, 0)->Done_value;
        let p = string::hex_digits(d, 4, 0)->Done_pos;
        if string::is_leading_surrogate(n) {
            lemma_skip_one(c.bytes, p);
            lemma_skip_one(c.bytes, p + 1);
            let e = c.at(p + 2);
            lemma_four_digits(e);
            lemma_hex_digits(e, 4, 0);
            lemma_scalar(string::surrogate_pair(n, string::hex_digits(e, 4, 0)->Done_value));
        } else {
            lemma_scalar(n);
        }
    } else {
        let b = string::simple_escape(c.bytes[c.pos])->0;
        let s = seq![b];
        reveal_with_fuel(valid_utf8, 2);
        assert(b & 0x7F < 0x80) by (bit_vector);
        assert(pop_first_scalar(s) =~= Seq::empty());
    }
}

proof fn lemma_literal(c: Cursor, sofar: Literal)
    requires
        c.valid(),
        valid_utf8(c.bytes.skip(c.pos)),
        valid_utf8(sofar.bytes),
    ensures
        string::literal(c, true, sofar) matches Outcome::Done { value, .. } ==> valid_utf8(
            value.bytes,
        ),
    decreases c.bytes.len() - c.pos,
{
    broadcast use valid_utf8_concat;

    if !c.spent() {
        let b = c.bytes[c.pos];
        let d = c.at(c.pos + 1);
        let rest = c.bytes.skip(c.pos);
        assert(rest[0] == b);
        if b == BACKSLASH {
            lemma_skip_one(c.bytes, c.pos);
            progress::lemma_escape(d);
            if let Outcome::Done { value, pos } = string::escape(d) {
                lemma_escape(d);
                lemma_literal(
                    c.at(pos),
                    Literal { bytes: sofar.bytes + value, escaped: true },
                );
            }
        } else if b != QUOTE && !is_control(b) {
            let n = length_of_first_scalar(rest) as nat;
            let first = take_first_scalar(rest);
            assert(c.bytes.subrange(c.pos, c.pos + n) =~= first);
            assert forall|k: int| c.pos <= k < c.pos + n implies verbatim(
                #[trigger] c.bytes[k],
                true,
            ) by {
                assert(c.bytes[k] == rest[k - c.pos]);
            }
            lemma_verbatim(c, true, sofar, n);
            assert(pop_first_scalar(rest) =~= c.bytes.skip(c.pos + n));
            assert(valid_utf8(first)) by {
                reveal_with_fuel(valid_utf8, 2);
                assert(pop_first_scalar(first) =~= Seq::empty());
            }
            lemma_literal(
                c.at(c.pos + n),
                Literal { bytes: sofar.bytes + first, escaped: sofar.escaped },
            );
        }
    }
}

/// In a text that is UTF-8 as a whole, every string is: none is refused
/// because its bytes do not encode characters.
pub proof fn law_strings_of_text(c: Cursor)
    requires
        c.valid(),
        valid_utf8(c.bytes),
        0 < c.pos,
        c.bytes[c.pos - 1] == QUOTE,
    ensures
        string::raw_string(c, true) matches Outcome::Done { value, pos } ==> string::text(c) == (
        Outcome::Done {
            value: Text { chars: decode_utf8(value.bytes), borrowed: value.borrowed },
            pos,
        }),
{
    let p = c.pos - 1;
    is_char_boundary_iff_not_is_continuation_byte(c.bytes, p);
    valid_utf8_split(c.bytes, p);
    assert(c.bytes.subrange(p, c.bytes.len() as int) =~= c.bytes.skip(p));
    lemma_skip_one(c.bytes, p);
    lemma_literal(c, string::no_literal());
    reveal(string::raw_string);
    reveal(string::text);
}

} // verus!
