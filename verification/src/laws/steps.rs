//! Laws of the steps between values.
//!
//! Each step first skips the blanks that stand where it begins. The laws say
//! what it does with the byte behind them, or with the end of the input.
use crate::error::ErrorCode;
use crate::laws::{documents, forms, notation, pieces};
use crate::outcome::{Outcome, Placed};
use crate::read::Cursor;
use crate::string::{Bytes, Text};
use crate::value::Json;
use crate::{grammar, outcome, progress, string};
use vstd::prelude::*;

verus! {

/// Whether `gap` are the blanks that stand at `c`.
pub open spec fn gap_at(c: Cursor, gap: Seq<u8>) -> bool {
    &&& documents::blank(gap)
    &&& notation::holds(c.bytes, c.pos, gap)
    &&& c.pos + gap.len() < c.bytes.len() ==> !notation::white(c.bytes[c.pos + gap.len()])
}

/// The step refuses the byte at `p`, which stays.
pub open spec fn refused<T>(code: ErrorCode, p: int) -> Outcome<T> {
    Outcome::Fail { code, place: p + 1, pos: p }
}

/// The step refuses the end of the input at `p`.
pub open spec fn ended<T>(code: ErrorCode, p: int) -> Outcome<T> {
    Outcome::Fail { code, place: p, pos: p }
}

/// The source fails.
pub open spec fn cut<T>() -> Outcome<T> {
    Outcome::Broken { placed: Placed::Nowhere, moved: false }
}

/// What a step gives that finds a byte at `p`, the end of the input, or a
/// source that fails.
pub open spec fn found<T>(c: Cursor, p: int, byte: Outcome<T>, end: Outcome<T>) -> Outcome<T> {
    if p < c.bytes.len() {
        byte
    } else if c.failure is None {
        end
    } else {
        cut()
    }
}

/// A cursor is a place in a text, and moving it changes nothing else.
pub proof fn law_cursor(c: Cursor, p: int)
    ensures
        c.at(p).pos == p,
        c.at(p).bytes == c.bytes,
        c.at(p).failure == c.failure,
        c.at(p).lends == c.lends,
        c.spent() <==> c.pos >= c.bytes.len(),
        c.peek_end() == if c.pos < c.bytes.len() {
            c.pos + 1
        } else {
            c.pos
        },
        c.broken() <==> c.failure is Some,
        c.valid() <==> 0 <= c.pos && c.pos <= c.bytes.len() && c.bytes.len() <= usize::MAX,
{
}

/// A byte is looked at and stays, or is consumed.
pub proof fn law_byte(c: Cursor)
    requires
        c.valid(),
    ensures
        outcome::look(c) == found(
            c,
            c.pos,
            Outcome::Done { value: Some(c.bytes[c.pos]), pos: c.pos },
            Outcome::Done { value: None, pos: c.pos },
        ),
        outcome::take(c) == found(
            c,
            c.pos,
            Outcome::Done { value: Some(c.bytes[c.pos]), pos: c.pos + 1 },
            Outcome::Done { value: None, pos: c.pos },
        ),
        forall|b: u8| #[trigger] outcome::or_null(Some(b)) == b,
        outcome::or_null(None) == 0,
{
}

/// The steps that look for one byte.
pub proof fn law_expected(c: Cursor, gap: Seq<u8>)
    requires
        c.valid(),
        gap_at(c, gap),
    ensures
        ({
            let p = c.pos + gap.len();
            let b = c.bytes[p];
            let there = Outcome::Done { value: (), pos: p + 1 };
            &&& grammar::spaced(c) == c.at(p)
            &&& grammar::whitespace(c) == found(
                c,
                p,
                Outcome::Done { value: Some(b), pos: p },
                Outcome::Done { value: None, pos: p },
            )
            &&& grammar::end(c) == found(
                c,
                p,
                refused(ErrorCode::TrailingCharacters, p),
                Outcome::Done { value: (), pos: p },
            )
            &&& grammar::object_colon(c) == found(
                c,
                p,
                if b == 0x3a {
                    there
                } else {
                    refused(ErrorCode::ExpectedColon, p)
                },
                ended(ErrorCode::EofWhileParsingObject, p),
            )
            &&& grammar::end_seq(c) == found(
                c,
                p,
                if b == 0x5d {
                    there
                } else {
                    refused(ErrorCode::TrailingCharacters, p)
                },
                ended(ErrorCode::EofWhileParsingList, p),
            )
            &&& grammar::end_map(c) == found(
                c,
                p,
                if b == 0x7d {
                    there
                } else {
                    refused(ErrorCode::TrailingCharacters, p)
                },
                ended(ErrorCode::EofWhileParsingObject, p),
            )
            &&& grammar::enum_end(c) == found(
                c,
                p,
                if b == 0x7d {
                    there
                } else {
                    ended(ErrorCode::ExpectedSomeValue, p)
                },
                ended(ErrorCode::EofWhileParsingObject, p),
            )
            &&& grammar::stream_start(c) == found(
                c,
                p,
                if b == 0x5b || b == 0x7b {
                    Outcome::Done { value: true, pos: p }
                } else {
                    refused(ErrorCode::ExpectedObjectOrArray, p)
                },
                Outcome::Done { value: false, pos: p },
            )
        }),
{
    forms::lemma_skip(c.bytes, c.pos, gap);
}

/// A step that looks for the byte `b`, whichever that is.
pub proof fn law_expect(c: Cursor, gap: Seq<u8>, b: u8, other: ErrorCode, eof: ErrorCode)
    requires
        c.valid(),
        gap_at(c, gap),
    ensures
        ({
            let p = c.pos + gap.len();
            grammar::expect(c, b, other, eof) == found(
                c,
                p,
                if c.bytes[p] == b {
                    Outcome::Done { value: (), pos: p + 1 }
                } else {
                    refused(other, p)
                },
                ended(eof, p),
            )
        }),
{
    forms::lemma_skip(c.bytes, c.pos, gap);
}

/// Whether a bracket or a brace opens something behind blanks.
pub proof fn law_opens(c: Cursor, gap: Seq<u8>)
    requires
        c.valid(),
        gap_at(c, gap),
    ensures
        ({
            let p = c.pos + gap.len();
            let b = c.bytes[p];
            &&& grammar::opens(c) <==> p < c.bytes.len() && (b == 0x5b || b == 0x7b)
            &&& grammar::opens_object(c) <==> p < c.bytes.len() && b == 0x7b
        }),
{
    forms::lemma_skip(c.bytes, c.pos, gap);
}

/// Whether an element follows.
pub proof fn law_next_element(c: Cursor, gap: Seq<u8>, first: bool)
    requires
        c.valid(),
        gap_at(c, gap),
    ensures
        ({
            let p = c.pos + gap.len();
            let b = c.bytes[p];
            &&& grammar::next_element(c, first) == found(
                c,
                p,
                if b == 0x5d {
                    Outcome::Done { value: false, pos: p }
                } else if first {
                    Outcome::Done { value: true, pos: p }
                } else if b == 0x2c {
                    Outcome::Done { value: true, pos: p + 1 }
                } else {
                    refused(ErrorCode::ExpectedListCommaOrEnd, p)
                },
                ended(ErrorCode::EofWhileParsingList, p),
            )
            &&& grammar::closes(c, 0x5d) <==> p == c.bytes.len() || b == 0x5d
            &&& grammar::closes(c, 0x7d) <==> p == c.bytes.len() || b == 0x7d
        }),
{
    forms::lemma_skip(c.bytes, c.pos, gap);
}

/// Whether a member follows. Behind a comma the blanks `behind` are skipped.
pub proof fn law_next_key(c: Cursor, gap: Seq<u8>, behind: Seq<u8>, first: bool)
    requires
        c.valid(),
        gap_at(c, gap),
        ({
            let p = c.pos + gap.len();
            !first && p < c.bytes.len() && c.bytes[p] == 0x2c ==> gap_at(c.at(p + 1), behind)
        }),
    ensures
        ({
            let p = c.pos + gap.len();
            let b = c.bytes[p];
            let q = p + 1 + behind.len();
            let due = |n: int|
                found(
                    c,
                    n,
                    if c.bytes[n] == 0x22 {
                        Outcome::Done { value: true, pos: n }
                    } else {
                        refused(ErrorCode::KeyMustBeAString, n)
                    },
                    ended(ErrorCode::EofWhileParsingValue, n),
                );
            grammar::next_key(c, first) == found(
                c,
                p,
                if b == 0x7d {
                    Outcome::Done { value: false, pos: p }
                } else if first {
                    due(p)
                } else if b == 0x2c {
                    due(q)
                } else {
                    refused(ErrorCode::ExpectedObjectCommaOrEnd, p)
                },
                ended(ErrorCode::EofWhileParsingObject, p),
            )
        }),
{
    forms::lemma_skip(c.bytes, c.pos, gap);
    let p = c.pos + gap.len();
    if !first && p < c.bytes.len() && c.bytes[p] == 0x2c {
        forms::lemma_skip(c.bytes, p + 1, behind);
    }
}

/// A word stands there, or it breaks off at a letter, or with the input.
pub proof fn law_word(c: Cursor, word: Seq<u8>, k: int)
    requires
        c.valid(),
        0 <= k <= word.len(),
        notation::holds(c.bytes, c.pos, word.take(k)),
        k < word.len() && c.pos + k < c.bytes.len() ==> c.bytes[c.pos + k] != word[k],
    ensures
        grammar::ident(c, word, 0) == if k == word.len() {
            Outcome::Done { value: (), pos: c.pos + k }
        } else {
            found(
                c,
                c.pos + k,
                pieces::refused_at(ErrorCode::ExpectedSomeIdent, c.pos + k + 1),
                pieces::refused_at(ErrorCode::ExpectedSomeIdent, c.pos + k),
            )
        },
{
    lemma_word_from(c, word, k, 0);
}

proof fn lemma_word_from(c: Cursor, word: Seq<u8>, k: int, i: int)
    requires
        c.valid(),
        0 <= i <= k <= word.len(),
        c.pos >= i,
        notation::holds(c.bytes, c.pos - i, word.take(k)),
        k < word.len() && c.pos - i + k < c.bytes.len() ==> c.bytes[c.pos - i + k] != word[k],
    ensures
        grammar::ident(c, word, i) == if k == word.len() {
            Outcome::Done { value: (), pos: c.pos - i + k }
        } else {
            found(
                c,
                c.pos - i + k,
                pieces::refused_at(ErrorCode::ExpectedSomeIdent, c.pos - i + k + 1),
                pieces::refused_at(ErrorCode::ExpectedSomeIdent, c.pos - i + k),
            )
        },
    decreases k - i,
{
    if i < k {
        assert(c.bytes[(c.pos - i) + i] == word.take(k)[i]);
        lemma_word_from(c.at(c.pos + 1), word, k, i + 1);
    }
}

/// The beginning of an option, of bytes and of an enum.
pub proof fn law_starts(c: Cursor, gap: Seq<u8>, depth: int)
    requires
        c.valid(),
        gap_at(c, gap),
    ensures
        ({
            let p = c.pos + gap.len();
            let b = c.bytes[p];
            let d = c.at(p + 1);
            &&& grammar::option_start(c) == found(
                c,
                p,
                if b == 0x6e {
                    grammar::ident(d, seq![0x75u8, 0x6cu8, 0x6cu8], 0).map(|u: ()| false)
                } else {
                    Outcome::Done { value: true, pos: p }
                },
                Outcome::Done { value: true, pos: p },
            )
            &&& grammar::bytes_start(c) == found(
                c,
                p,
                if b == 0x22 {
                    string::raw_string(d, false).map(|x: Bytes| Some(x))
                } else {
                    Outcome::Done { value: None, pos: p }
                },
                Outcome::Done { value: None, pos: p },
            )
            &&& grammar::enum_start(c, depth) == found(
                c,
                p,
                if b == 0x7b && depth > 1 {
                    Outcome::Done { value: true, pos: p + 1 }
                } else if b == 0x7b {
                    refused(ErrorCode::RecursionLimitExceeded, p)
                } else if b == 0x22 {
                    Outcome::Done { value: false, pos: p }
                } else {
                    refused(ErrorCode::ExpectedSomeValue, p)
                },
                ended(ErrorCode::EofWhileParsingValue, p),
            )
        }),
{
    forms::lemma_skip(c.bytes, c.pos, gap);
    assert(grammar::ull() =~= seq![0x75u8, 0x6cu8, 0x6cu8]);
}

/// An opening bracket is consumed as long as a level is left behind it.
pub proof fn law_open(c: Cursor, depth: int)
    requires
        c.valid(),
        c.pos < c.bytes.len(),
    ensures
        grammar::open(c, depth, ()) == if depth > 1 {
            Outcome::Done { value: (), pos: c.pos + 1 }
        } else {
            refused(ErrorCode::RecursionLimitExceeded, c.pos)
        },
{
}

/// The levels that are left: a refusal for nesting costs one, an opening
/// bracket takes one, and nothing else changes their number.
pub proof fn law_levels<T>(depth: int, o: Outcome<T>, t: Outcome<grammar::Token>)
    ensures
        grammar::depth_after(depth, o) == match o {
            Outcome::Fail { code, .. } | Outcome::Torn { code, .. } => if code
                == ErrorCode::RecursionLimitExceeded {
                depth - 1
            } else {
                depth
            },
            _ => depth,
        },
        grammar::depth_within(depth, t) == match t {
            Outcome::Done { value, .. } => if value is Array || value is Object {
                depth - 1
            } else {
                depth
            },
            Outcome::Fail { code, .. } | Outcome::Torn { code, .. } => if code
                == ErrorCode::RecursionLimitExceeded {
                depth - 1
            } else {
                depth
            },
            _ => depth,
        },
{
}

/// The beginning of a value is the value itself, or the bracket that opens it.
pub proof fn law_head(c: Cursor, gap: Seq<u8>, depth: int)
    requires
        c.valid(),
        gap_at(c, gap),
    ensures
        ({
            let p = c.pos + gap.len();
            let b = c.bytes[p];
            let here = p < c.bytes.len();
            let t = grammar::token(c, depth);
            let v = grammar::value(c, depth);
            &&& here && (b == 0x5b || b == 0x7b) ==> t == if depth <= 1 {
                refused(ErrorCode::RecursionLimitExceeded, p)
            } else if b == 0x5b {
                Outcome::Done { value: grammar::Token::Array, pos: p + 1 }
            } else {
                Outcome::Done { value: grammar::Token::Object, pos: p + 1 }
            }
            &&& here && (b == 0x5b || b == 0x7b) && depth <= 1 ==> v == refused::<Json>(
                ErrorCode::RecursionLimitExceeded,
                p,
            )
            &&& !(here && (b == 0x5b || b == 0x7b)) ==> match t {
                Outcome::Done { value: grammar::Token::Null, pos } => v == (Outcome::Done {
                    value: Json::Null,
                    pos,
                }),
                Outcome::Done { value: grammar::Token::Bool(x), pos } => v == (Outcome::Done {
                    value: Json::Bool(x),
                    pos,
                }),
                Outcome::Done { value: grammar::Token::Number(x), pos } => v == (Outcome::Done {
                    value: Json::Number(x),
                    pos,
                }),
                Outcome::Done { value: grammar::Token::String(x), pos } => v == (Outcome::Done {
                    value: Json::String(x.chars),
                    pos,
                }),
                Outcome::Done { .. } => false,
                Outcome::Fail { code, place, pos } => v == (Outcome::<Json>::Fail {
                    code,
                    place,
                    pos,
                }),
                Outcome::Torn { .. } => false,
                Outcome::Broken { placed, moved } => v == (Outcome::<Json>::Broken {
                    placed,
                    moved,
                }),
            }
            &&& here && b == 0x6e ==> v == grammar::ident(
                c.at(p + 1),
                seq![0x75u8, 0x6cu8, 0x6cu8],
                0,
            ).map(|u: ()| Json::Null)
            &&& here && b == 0x74 ==> v == grammar::ident(
                c.at(p + 1),
                seq![0x72u8, 0x75u8, 0x65u8],
                0,
            ).map(|u: ()| Json::Bool(true))
            &&& here && b == 0x66 ==> v == grammar::ident(
                c.at(p + 1),
                seq![0x61u8, 0x6cu8, 0x73u8, 0x65u8],
                0,
            ).map(|u: ()| Json::Bool(false))
            &&& here && b == 0x22 ==> v == string::text(c.at(p + 1)).map(
                |x: Text| Json::String(x.chars),
            )
            &&& p == c.bytes.len() ==> v == if c.failure is None {
                ended::<Json>(ErrorCode::EofWhileParsingValue, p)
            } else {
                cut()
            }
            &&& here && b != 0x6e && b != 0x74 && b != 0x66 && b != 0x2d && !notation::digit(b) && b
                != 0x22 && b != 0x5b && b != 0x7b ==> v == refused::<Json>(
                ErrorCode::ExpectedSomeValue,
                p,
            )
        }),
{
    reveal(grammar::value);
    forms::lemma_skip(c.bytes, c.pos, gap);
    let s = c.at(c.pos + gap.len());
    lemma_not_torn(s);
    lemma_not_torn(c.at(s.pos + 1));
    assert(grammar::ull() =~= seq![0x75u8, 0x6cu8, 0x6cu8]);
    assert(grammar::rue() =~= seq![0x72u8, 0x75u8, 0x65u8]);
    assert(grammar::alse() =~= seq![0x61u8, 0x6cu8, 0x73u8, 0x65u8]);
}

/// Words, numbers and strings have no closing bracket.
proof fn lemma_not_torn(c: Cursor)
    ensures
        !(grammar::ident(c, grammar::ull(), 0) is Torn),
        !(grammar::ident(c, grammar::rue(), 0) is Torn),
        !(grammar::ident(c, grammar::alse(), 0) is Torn),
        !(crate::number::integer(c, true) is Torn),
        !(crate::number::integer(c, false) is Torn),
        !(string::text(c) is Torn),
{
    progress::lemma_flat_scalars(c);
}

} // verus!
