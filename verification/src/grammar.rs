//! What each reading step makes of the text.
use crate::ascii::{
    is_digit, is_space, CLOSE_BRACE, CLOSE_BRACKET, COLON, COMMA, LOWER_A, LOWER_E, LOWER_F,
    LOWER_L, LOWER_N, LOWER_R, LOWER_S, LOWER_T, LOWER_U, MINUS, OPEN_BRACE, OPEN_BRACKET, QUOTE,
};
use crate::error::ErrorCode;
use crate::number::Number;
use crate::outcome::{Outcome, Placed};
use crate::read::Cursor;
use crate::string::{Bytes, Text};
use crate::value::Json;
use crate::{number, outcome, string};
use vstd::prelude::*;

verus! {

/// The first place from `i` on where no white space stands.
pub open spec fn skip_space(b: Seq<u8>, i: int) -> int
    decreases b.len() - i,
{
    if 0 <= i < b.len() && is_space(b[i]) {
        skip_space(b, i + 1)
    } else {
        i
    }
}

/// The cursor behind white space.
pub open spec fn spaced(c: Cursor) -> Cursor {
    c.at(skip_space(c.bytes, c.pos))
}

/// White space, and a look at what follows it.
pub open spec fn whitespace(c: Cursor) -> Outcome<Option<u8>> {
    outcome::look(spaced(c))
}

/// A failure that points at the next byte, or at the last one if none is
/// left.
pub open spec fn fail_ahead<T>(c: Cursor, code: ErrorCode) -> Outcome<T> {
    Outcome::Fail { code, place: c.peek_end(), pos: c.pos }
}

/// A failure at the end of the input, unless the source breaks there.
pub open spec fn fail_eof<T>(c: Cursor, code: ErrorCode) -> Outcome<T> {
    number::looking(c, fail_ahead(c, code))
}

/// The byte `b` behind white space; `other` if another byte stands there,
/// `eof` if none does.
pub open spec fn expect(c: Cursor, b: u8, other: ErrorCode, eof: ErrorCode) -> Outcome<()> {
    let s = spaced(c);
    if s.spent() {
        fail_eof(s, eof)
    } else if s.bytes[s.pos] == b {
        Outcome::Done { value: (), pos: s.pos + 1 }
    } else {
        fail_ahead(s, other)
    }
}

/// The colon between a key and its value.
pub open spec fn object_colon(c: Cursor) -> Outcome<()> {
    expect(c, COLON, ErrorCode::ExpectedColon, ErrorCode::EofWhileParsingObject)
}

/// The end of an array.
pub open spec fn end_seq(c: Cursor) -> Outcome<()> {
    expect(c, CLOSE_BRACKET, ErrorCode::TrailingCharacters, ErrorCode::EofWhileParsingList)
}

/// The end of an object.
pub open spec fn end_map(c: Cursor) -> Outcome<()> {
    expect(c, CLOSE_BRACE, ErrorCode::TrailingCharacters, ErrorCode::EofWhileParsingObject)
}

/// The end of the input, behind white space.
pub open spec fn end(c: Cursor) -> Outcome<()> {
    let s = spaced(c);
    if s.spent() {
        number::looking(s, Outcome::Done { value: (), pos: s.pos })
    } else {
        fail_ahead(s, ErrorCode::TrailingCharacters)
    }
}

/// The letters of `word` from the `k`th on.
pub open spec fn ident(c: Cursor, word: Seq<u8>, k: int) -> Outcome<()>
    decreases word.len() - k,
{
    if k >= word.len() {
        Outcome::Done { value: (), pos: c.pos }
    } else if c.spent() {
        number::looking(
            c,
            Outcome::Fail { code: ErrorCode::ExpectedSomeIdent, place: c.pos, pos: c.pos },
        )
    } else if c.bytes[c.pos] == word[k] {
        ident(c.at(c.pos + 1), word, k + 1)
    } else {
        string::fail_behind(c, ErrorCode::ExpectedSomeIdent)
    }
}

/// `null` without its first letter.
pub open spec fn ull() -> Seq<u8> {
    seq![LOWER_U, LOWER_L, LOWER_L]
}

/// `true` without its first letter.
pub open spec fn rue() -> Seq<u8> {
    seq![LOWER_R, LOWER_U, LOWER_E]
}

/// `false` without its first letter.
pub open spec fn alse() -> Seq<u8> {
    seq![LOWER_A, LOWER_L, LOWER_S, LOWER_E]
}

/// The beginning of a value: all of it, or the bracket that opens it.
pub enum Token {
    Null,
    Bool(bool),
    Number(Number),
    String(Text),
    Array,
    Object,
}

/// An opening bracket of a value that `depth` levels are left for.
pub open spec fn open<T>(c: Cursor, depth: int, token: T) -> Outcome<T> {
    if depth <= 1 {
        fail_ahead(c, ErrorCode::RecursionLimitExceeded)
    } else {
        Outcome::Done { value: token, pos: c.pos + 1 }
    }
}

/// Whether an array or an object begins behind white space.
pub open spec fn opens(c: Cursor) -> bool {
    number::faces(spaced(c), OPEN_BRACKET) || opens_object(c)
}

/// Whether an object begins behind white space.
pub open spec fn opens_object(c: Cursor) -> bool {
    number::faces(spaced(c), OPEN_BRACE)
}

/// The beginning of a value.
pub open spec fn token(c: Cursor, depth: int) -> Outcome<Token> {
    let s = spaced(c);
    let t = s.at(s.pos + 1);
    if s.spent() {
        fail_eof(s, ErrorCode::EofWhileParsingValue)
    } else {
        let b = s.bytes[s.pos];
        if b == LOWER_N {
            ident(t, ull(), 0).map(|u: ()| Token::Null)
        } else if b == LOWER_T {
            ident(t, rue(), 0).map(|u: ()| Token::Bool(true))
        } else if b == LOWER_F {
            ident(t, alse(), 0).map(|u: ()| Token::Bool(false))
        } else if b == MINUS {
            number::integer(t, false).map(|n: Number| Token::Number(n)).placed()
        } else if is_digit(b) {
            number::integer(s, true).map(|n: Number| Token::Number(n)).placed()
        } else if b == QUOTE {
            string::text(t).map(|x: Text| Token::String(x))
        } else if b == OPEN_BRACKET {
            open(s, depth, Token::Array)
        } else if b == OPEN_BRACE {
            open(s, depth, Token::Object)
        } else {
            fail_ahead(s, ErrorCode::ExpectedSomeValue)
        }
    }
}

/// Whether behind white space the bracket `b` stands, or nothing at all.
pub open spec fn closes(c: Cursor, b: u8) -> bool {
    let s = spaced(c);
    s.spent() || s.bytes[s.pos] == b
}

/// Whether another element follows in an array, of which `first` says that
/// none has been read. The comma before it is consumed, the closing bracket is
/// not.
pub open spec fn next_element(c: Cursor, first: bool) -> Outcome<bool> {
    let s = spaced(c);
    if s.spent() {
        fail_eof(s, ErrorCode::EofWhileParsingList)
    } else if s.bytes[s.pos] == CLOSE_BRACKET {
        Outcome::Done { value: false, pos: s.pos }
    } else if first {
        Outcome::Done { value: true, pos: s.pos }
    } else if s.bytes[s.pos] == COMMA {
        Outcome::Done { value: true, pos: s.pos + 1 }
    } else {
        fail_ahead(s, ErrorCode::ExpectedListCommaOrEnd)
    }
}

/// The quote that begins a key.
pub open spec fn key_start(c: Cursor) -> Outcome<bool> {
    if c.spent() {
        fail_eof(c, ErrorCode::EofWhileParsingValue)
    } else if c.bytes[c.pos] == QUOTE {
        Outcome::Done { value: true, pos: c.pos }
    } else {
        fail_ahead(c, ErrorCode::KeyMustBeAString)
    }
}

/// Whether another member follows in an object, of which `first` says that
/// none has been read. What stands before its key is consumed, the closing
/// brace is not.
pub open spec fn next_key(c: Cursor, first: bool) -> Outcome<bool> {
    let s = spaced(c);
    if s.spent() {
        fail_eof(s, ErrorCode::EofWhileParsingObject)
    } else if s.bytes[s.pos] == CLOSE_BRACE {
        Outcome::Done { value: false, pos: s.pos }
    } else if first {
        key_start(s)
    } else if s.bytes[s.pos] == COMMA {
        key_start(spaced(s.at(s.pos + 1)))
    } else {
        fail_ahead(s, ErrorCode::ExpectedObjectCommaOrEnd)
    }
}

/// What stays consumed when a container that `inner` reads ends with `close`,
/// which is tried for even where the content was refused.
pub open spec fn closing<T, U>(
    c: Cursor,
    inner: Outcome<T>,
    close: spec_fn(Cursor) -> Outcome<()>,
    make: spec_fn(T) -> U,
) -> Outcome<U> {
    match inner {
        Outcome::Done { value, pos } => close(c.at(pos)).map(|u: ()| make(value)).placed(),
        Outcome::Fail { code, place, pos } => match close(c.at(pos)) {
            Outcome::Done { pos: p, .. } => Outcome::Fail { code, place, pos: p },
            Outcome::Fail { pos: p, .. } => Outcome::Fail { code, place, pos: p },
            _ => Outcome::Torn { code, place },
        },
        Outcome::Torn { code, place } => Outcome::Torn { code, place },
        Outcome::Broken { placed: Placed::Nowhere, .. } => Outcome::Broken {
            placed: Placed::Behind,
            moved: true,
        },
        Outcome::Broken { placed, .. } => Outcome::Broken { placed, moved: true },
    }
}

/// A value for which `depth` levels of nesting are left.
#[verifier::opaque]
pub open spec fn value(c: Cursor, depth: int) -> Outcome<Json>
    decreases depth, c.bytes.len() - c.pos, 1int,
{
    match token(c, depth) {
        Outcome::Done { value: t, pos } => match t {
            Token::Null => Outcome::Done { value: Json::Null, pos },
            Token::Bool(b) => Outcome::Done { value: Json::Bool(b), pos },
            Token::Number(n) => Outcome::Done { value: Json::Number(n), pos },
            Token::String(x) => Outcome::Done { value: Json::String(x.chars), pos },
            Token::Array => if depth <= 1 {
                outcome::broken()
            } else {
                array(c.at(pos), depth - 1)
            },
            Token::Object => if depth <= 1 {
                outcome::broken()
            } else {
                object(c.at(pos), depth - 1)
            },
        },
        o => o.recast(),
    }
}

/// An array from behind its opening bracket, with `depth` levels left for its
/// elements.
pub open spec fn array(c: Cursor, depth: int) -> Outcome<Json>
    decreases depth, c.bytes.len() - c.pos, 3int,
{
    closing(
        c,
        elements(c, depth, true, Seq::empty()),
        |d: Cursor| end_seq(d),
        |v: Seq<Json>| Json::Array(v),
    )
}

/// An object from behind its opening brace, with `depth` levels left for its
/// members.
pub open spec fn object(c: Cursor, depth: int) -> Outcome<Json>
    decreases depth, c.bytes.len() - c.pos, 4int,
{
    closing(
        c,
        members(c, depth, true, Seq::empty()),
        |d: Cursor| end_map(d),
        |v: Seq<(Seq<char>, Json)>| Json::Object(v),
    )
}

/// The rest of an array behind the elements `sofar`, up to its closing
/// bracket.
pub open spec fn elements(c: Cursor, depth: int, first: bool, sofar: Seq<Json>) -> Outcome<
    Seq<Json>,
>
    decreases depth, c.bytes.len() - c.pos, 2int,
{
    match next_element(c, first) {
        Outcome::Done { value: more, pos } => if !more {
            Outcome::Done { value: sofar, pos }
        } else if c.pos <= pos <= c.bytes.len() {
            match value(c.at(pos), depth) {
                Outcome::Done { value: v, pos: q } => if c.pos < q <= c.bytes.len() {
                    elements(c.at(q), depth, false, sofar.push(v))
                } else {
                    outcome::broken()
                },
                o => o.recast(),
            }
        } else {
            outcome::broken()
        },
        o => o.recast(),
    }
}

/// A member of an object, from the opening quote of its key on.
pub open spec fn member(c: Cursor, depth: int) -> Outcome<(Seq<char>, Json)>
    decreases depth, c.bytes.len() - c.pos, 2int,
{
    match string::text(c.at(c.pos + 1)) {
        Outcome::Done { value: key, pos } => match object_colon(c.at(pos)) {
            Outcome::Done { value: _, pos: p } => if c.pos <= p <= c.bytes.len() {
                value(c.at(p), depth).map(|v: Json| (key.chars, v))
            } else {
                outcome::broken()
            },
            o => o.recast(),
        },
        o => o.recast(),
    }
}

/// The rest of an object behind the members `sofar`, up to its closing brace.
pub open spec fn members(
    c: Cursor,
    depth: int,
    first: bool,
    sofar: Seq<(Seq<char>, Json)>,
) -> Outcome<Seq<(Seq<char>, Json)>>
    decreases depth, c.bytes.len() - c.pos, 3int,
{
    match next_key(c, first) {
        Outcome::Done { value: more, pos } => if !more {
            Outcome::Done { value: sofar, pos }
        } else if c.pos <= pos <= c.bytes.len() {
            match member(c.at(pos), depth) {
                Outcome::Done { value: m, pos: q } => if c.pos < q <= c.bytes.len() {
                    members(c.at(q), depth, false, sofar.push(m))
                } else {
                    outcome::broken()
                },
                o => o.recast(),
            }
        } else {
            outcome::broken()
        },
        o => o.recast(),
    }
}

/// The levels of nesting that are left when a value has ended so: one that is
/// refused for its nesting costs a level.
pub open spec fn depth_after<T>(depth: int, o: Outcome<T>) -> int {
    match o.code() {
        Some(ErrorCode::RecursionLimitExceeded) => depth - 1,
        _ => depth,
    }
}

/// The levels of nesting that are left inside what a token begins.
pub open spec fn depth_within(depth: int, o: Outcome<Token>) -> int {
    match o {
        Outcome::Done { value: Token::Array, .. } => depth - 1,
        Outcome::Done { value: Token::Object, .. } => depth - 1,
        _ => depth_after(depth, o),
    }
}

/// Whether a value follows that is not `null`. A `null` is consumed.
pub open spec fn option_start(c: Cursor) -> Outcome<bool> {
    let s = spaced(c);
    if number::faces(s, LOWER_N) {
        ident(s.at(s.pos + 1), ull(), 0).map(|u: ()| false)
    } else {
        number::looking(s, Outcome::Done { value: true, pos: s.pos })
    }
}

/// A value that may be `null`.
pub open spec fn option(c: Cursor, depth: int) -> Outcome<Option<Json>> {
    option_start(c).and_then(
        |some: bool, p: int|
            if some {
                value(c.at(p), depth).map(|v: Json| Some(v))
            } else {
                Outcome::Done { value: None, pos: p }
            },
    )
}

/// The bytes of a string, if one follows.
pub open spec fn bytes_start(c: Cursor) -> Outcome<Option<Bytes>> {
    let s = spaced(c);
    if number::faces(s, QUOTE) {
        string::raw_string(s.at(s.pos + 1), false).map(|b: Bytes| Some(b))
    } else {
        number::looking(s, Outcome::Done { value: None, pos: s.pos })
    }
}

/// A string as bytes, or any other value.
pub enum BytesOr {
    Bytes(Bytes),
    Other(Json),
}

/// A string as bytes, or any other value.
pub open spec fn bytes(c: Cursor, depth: int) -> Outcome<BytesOr> {
    bytes_start(c).and_then(
        |b: Option<Bytes>, p: int|
            match b {
                Some(b) => Outcome::Done { value: BytesOr::Bytes(b), pos: p },
                None => value(c.at(p), depth).map(|v: Json| BytesOr::Other(v)),
            },
    )
}

/// The beginning of an enum: `true` for an opening brace, which is consumed,
/// `false` for the quote of a variant without data, which is not.
pub open spec fn enum_start(c: Cursor, depth: int) -> Outcome<bool> {
    let s = spaced(c);
    if s.spent() {
        fail_eof(s, ErrorCode::EofWhileParsingValue)
    } else if s.bytes[s.pos] == OPEN_BRACE {
        open(s, depth, Token::Object).map(|t: Token| true)
    } else if s.bytes[s.pos] == QUOTE {
        Outcome::Done { value: false, pos: s.pos }
    } else {
        fail_ahead(s, ErrorCode::ExpectedSomeValue)
    }
}

/// The name of a variant, the colon and the data of the variant.
pub open spec fn variant_data(c: Cursor, depth: int) -> Outcome<(Json, Option<Json>)> {
    value(c, depth).and_then(
        |name: Json, p: int|
            object_colon(c.at(p)).and_then(
                |u: (), q: int| value(c.at(q), depth).map(|v: Json| (name, Some(v))),
            ),
    )
}

/// The closing brace of an enum. A failure points at what stands before the
/// place where the brace was due.
pub open spec fn enum_end(c: Cursor) -> Outcome<()> {
    let s = spaced(c);
    if s.spent() {
        fail_eof(s, ErrorCode::EofWhileParsingObject)
    } else if s.bytes[s.pos] == CLOSE_BRACE {
        Outcome::Done { value: (), pos: s.pos + 1 }
    } else {
        Outcome::Fail { code: ErrorCode::ExpectedSomeValue, place: s.pos, pos: s.pos }
    }
}

/// An enum: a string, or an object with one member. Gives the name of the
/// variant and its data.
pub open spec fn variant(c: Cursor, depth: int) -> Outcome<(Json, Option<Json>)> {
    enum_start(c, depth).and_then(
        |braced: bool, p: int|
            if braced {
                variant_data(c.at(p), depth - 1).and_then(
                    |v: (Json, Option<Json>), q: int| enum_end(c.at(q)).map(|u: ()| v),
                )
            } else {
                value(c.at(p), depth).map(|v: Json| (v, None::<Json>))
            },
    )
}

/// The levels of nesting that are left behind an enum: a failure between the
/// braces costs the level that the braces opened.
pub open spec fn depth_after_variant(c: Cursor, depth: int) -> int {
    match enum_start(c, depth) {
        Outcome::Done { value: true, pos } => match variant_data(c.at(pos), depth - 1) {
            Outcome::Done { .. } => depth,
            o => depth_after(depth - 1, o),
        },
        Outcome::Done { value: false, pos } => depth_after(depth, value(c.at(pos), depth)),
        o => depth_after(depth, o),
    }
}

/// A value and nothing behind it but white space.
pub open spec fn document(c: Cursor, depth: int) -> Outcome<Json> {
    value(c, depth).and_then(|v: Json, p: int| end(c.at(p)).map(|u: ()| v))
}

/// Whether another value follows in a stream of arrays and objects.
pub open spec fn stream_start(c: Cursor) -> Outcome<bool> {
    let s = spaced(c);
    if s.spent() {
        number::looking(s, Outcome::Done { value: false, pos: s.pos })
    } else if s.bytes[s.pos] == OPEN_BRACE || s.bytes[s.pos] == OPEN_BRACKET {
        Outcome::Done { value: true, pos: s.pos }
    } else {
        fail_ahead(s, ErrorCode::ExpectedObjectOrArray)
    }
}

} // verus!
