//! Laws of what callers get.
//!
//! The contracts say of each step how it ends. These laws say what that means
//! for its result and its source, and what the values are that callers get.
use crate::de::Deserializer;
use crate::error::{Category, ErrorCode, Result};
use crate::outcome::{Outcome, Placed};
use crate::parse::{BytesOr, Head, Variant};
use crate::read::{Cursor, Read, Reference};
use crate::string::{Bytes, Text};
use crate::value::{Json, Value};
use crate::{de, grammar, outcome, parse, read, stream};
use vstd::prelude::*;

verus! {

/// A step that is done gives its value and leaves the source where it says,
/// with nothing else changed.
pub proof fn law_done<T, U>(
    c: Cursor,
    after: Cursor,
    r: Result<T>,
    view: spec_fn(T) -> U,
    value: U,
    pos: int,
)
    ensures
        outcome::gives_as(c, r, view, Outcome::Done { value, pos }) <==> (r matches Ok(v) && view(v)
            == value),
        outcome::settles_as(c, after, r, view, Outcome::Done { value, pos }) <==> {
            &&& r matches Ok(v)
            &&& view(v) == value
            &&& after.bytes == c.bytes
            &&& after.pos == pos
            &&& after.failure == c.failure
            &&& after.lends == c.lends
            &&& 0 <= pos <= c.bytes.len() <= usize::MAX
        },
{
}

/// A step that refuses the text gives an error with the reason, and with the
/// line and the column in which the bytes up to its place end.
pub proof fn law_fail<T, U>(
    c: Cursor,
    after: Cursor,
    r: Result<T>,
    view: spec_fn(T) -> U,
    code: ErrorCode,
    place: int,
    pos: int,
)
    ensures
        outcome::gives_as(c, r, view, Outcome::<U>::Fail { code, place, pos }) <==> {
            &&& r matches Err(e)
            &&& e@.code == code
            &&& e@.line == read::line_column(c.bytes, place).0
            &&& e@.column == read::line_column(c.bytes, place).1
        },
        outcome::gives_as(c, r, view, Outcome::<U>::Torn { code, place }) <==> {
            &&& r matches Err(e)
            &&& e@.code == code
            &&& e@.line == read::line_column(c.bytes, place).0
            &&& e@.column == read::line_column(c.bytes, place).1
        },
        outcome::settles_as(c, after, r, view, Outcome::<U>::Fail { code, place, pos }) <==> {
            &&& outcome::gives_as(c, r, view, Outcome::<U>::Fail { code, place, pos })
            &&& after.bytes == c.bytes
            &&& after.pos == pos
            &&& after.failure == c.failure
            &&& after.lends == c.lends
            &&& 0 <= pos <= c.bytes.len() <= usize::MAX
        },
        outcome::settles_as(c, after, r, view, Outcome::<U>::Torn { code, place }) <==> {
            &&& outcome::gives_as(c, r, view, Outcome::<U>::Torn { code, place })
            &&& c.bytes.len() <= after.pos <= after.bytes.len() <= usize::MAX
            &&& after.bytes.take(c.bytes.len() as int) == c.bytes
        },
{
}

/// A step whose source fails gives the error of the source, at no place, at
/// the last byte that came before it, or at that or one that came after it.
pub proof fn law_broken<T, U>(
    c: Cursor,
    after: Cursor,
    r: Result<T>,
    view: spec_fn(T) -> U,
    placed: Placed,
    moved: bool,
)
    ensures
        ({
            let o = Outcome::<U>::Broken { placed, moved };
            let end = read::line_column(c.bytes, c.bytes.len() as int);
            &&& outcome::gives_as(c, r, view, o) ==> {
                &&& r matches Err(e)
                &&& e@.code matches ErrorCode::Io(x)
                &&& c.failure == Some(x)
                &&& placed is Nowhere ==> e@.line == 0 && e@.column == 0
                &&& placed is AtEnd ==> e@.line == end.0 && e@.column == end.1
            }
            &&& outcome::settles_as(c, after, r, view, o) ==> {
                &&& outcome::gives_as(c, r, view, o)
                &&& c.bytes.len() <= after.pos <= after.bytes.len() <= usize::MAX
                &&& after.bytes.take(c.bytes.len() as int) == c.bytes
                &&& !moved ==> after.pos == c.bytes.len()
                &&& placed is Behind ==> (r matches Err(e) && exists|n: int|
                    c.bytes.len() <= n <= after.pos && (#[trigger] read::line_column(
                        after.bytes,
                        n,
                    )).0 == e@.line && read::line_column(after.bytes, n).1 == e@.column)
            }
        }),
{
    if outcome::settles_as(c, after, r, view, Outcome::<U>::Broken { placed, moved }) {
        if placed is Behind {
            let e = r->Err_0;
            let n = choose|n: int|
                c.bytes.len() <= n <= after.pos && #[trigger] read::line_column(after.bytes, n) == (
                    e@.line,
                    e@.column,
                );
            assert(read::line_column(after.bytes, n).0 == e@.line);
        }
    }
}

/// A step of a deserializer keeps the levels of nesting.
pub proof fn law_steps<'de, R: Read<'de>, T>(
    before: Deserializer<R>,
    after: Deserializer<R>,
    r: Result<T>,
    o: Outcome<T>,
)
    ensures
        Deserializer::<R>::steps(before, after, r, o) <==> outcome::settles_as(
            before.cursor(),
            after.cursor(),
            r,
            |v: T| v,
            o,
        ) && after.depth() == before.depth(),
        outcome::settles(before.cursor(), after.cursor(), r, o) <==> outcome::settles_as(
            before.cursor(),
            after.cursor(),
            r,
            |v: T| v,
            o,
        ),
{
}

/// A step that another follows, or whose value is changed, ends as it does
/// unless it is done.
pub proof fn law_endings<T, U>(
    o: Outcome<T>,
    f: spec_fn(T) -> U,
    next: spec_fn(T, int) -> Outcome<U>,
)
    ensures
        match o {
            Outcome::Done { value, pos } => {
                &&& o.map(f) == (Outcome::Done { value: f(value), pos })
                &&& o.and_then(next) == next(value, pos)
                &&& o.code() == None::<ErrorCode>
                &&& o.placed() == o
            },
            Outcome::Fail { code, place, pos } => {
                let p = Outcome::<U>::Fail { code, place, pos };
                &&& o.map(f) == p
                &&& o.and_then(next) == p
                &&& o.recast::<U>() == p
                &&& o.code() == Some(code)
                &&& o.placed() == o
            },
            Outcome::Torn { code, place } => {
                let p = Outcome::<U>::Torn { code, place };
                &&& o.map(f) == p
                &&& o.and_then(next) == p
                &&& o.recast::<U>() == p
                &&& o.code() == Some(code)
                &&& o.placed() == o
            },
            Outcome::Broken { placed, moved } => {
                let p = Outcome::<U>::Broken { placed, moved };
                &&& o.map(f) == p
                &&& o.and_then(next) == p
                &&& o.recast::<U>() == p
                &&& o.code() == None::<ErrorCode>
                &&& placed is Nowhere ==> o.placed() == (Outcome::<T>::Broken {
                    placed: Placed::AtEnd,
                    moved,
                })
                &&& !(placed is Nowhere) ==> o.placed() == o
            },
        },
{
}

/// What a value is: a string is its characters, an array its elements and an
/// object its members, all of them and in their order.
pub proof fn law_value(v: Value)
    ensures
        match v {
            Value::Null => v@ == Json::Null,
            Value::Bool(b) => v@ == Json::Bool(b),
            Value::Number(n) => v@ == Json::Number(n),
            Value::String(s) => v@ == Json::String(s@),
            Value::Array(w) => v@ matches Json::Array(j) && j.len() == w@.len() && forall|i: int|
                0 <= i < w@.len() ==> #[trigger] j[i] == w@[i]@,
            Value::Object(w) => v@ matches Json::Object(j) && j.len() == w@.len() && forall|i: int|
                0 <= i < w@.len() ==> (#[trigger] j[i]).0 == w@[i].0@ && j[i].1 == w@[i].1@,
        },
{
}

/// What the beginning of a value is.
pub proof fn law_token<'de>(h: Head<'de>)
    ensures
        match h {
            Head::Null => h.token() == grammar::Token::Null,
            Head::Bool(b) => h.token() == grammar::Token::Bool(b),
            Head::Number(n) => h.token() == grammar::Token::Number(n),
            Head::String(Reference::Borrowed(s)) => h.token() == grammar::Token::String(
                Text { chars: s@, borrowed: true },
            ),
            Head::String(Reference::Copied(s)) => h.token() == grammar::Token::String(
                Text { chars: s@, borrowed: false },
            ),
            Head::Array => h.token() == grammar::Token::Array,
            Head::Object => h.token() == grammar::Token::Object,
        },
{
}

/// What bytes are.
pub proof fn law_reference<'de>(b: Reference<&'de [u8], Vec<u8>>, s: Reference<&'de str, String>)
    ensures
        match b {
            Reference::Borrowed(x) => b.bytes() == (Bytes { bytes: x@, borrowed: true }),
            Reference::Copied(x) => b.bytes() == (Bytes { bytes: x@, borrowed: false }),
        },
        match s {
            Reference::Borrowed(x) => s.text() == (Text { chars: x@, borrowed: true }),
            Reference::Copied(x) => s.text() == (Text { chars: x@, borrowed: false }),
        },
        parse::bytes_view(Some(b)) == Some(b.bytes()),
        parse::bytes_view(None::<Reference<&'de [u8], Vec<u8>>>) == None::<Bytes>,
        BytesOr::Bytes(b).bytes_or() == grammar::BytesOr::Bytes(b.bytes()),
{
}

/// What optional values, values that are not bytes, and variants are.
pub proof fn law_parts<'de>(v: Value, w: Value)
    ensures
        parse::option_view(Some(v)) == Some(v@),
        parse::option_view(None) == None::<Json>,
        BytesOr::<'de>::Other(v).bytes_or() == grammar::BytesOr::Other(v@),
        (Variant { name: v, data: Some(w) }).parts() == (v@, Some(w@)),
        (Variant { name: v, data: None }).parts() == (v@, None::<Json>),
{
}

/// A text in memory is read from its first byte on, never fails, and lends;
/// one hundred and twenty-eight levels are left for it.
pub proof fn law_memory(b: Seq<u8>)
    ensures
        stream::slice_cursor(b).bytes == b,
        stream::slice_cursor(b).pos == 0,
        stream::slice_cursor(b).failure is None,
        stream::slice_cursor(b).lends,
        de::DEPTH_LIMIT == 128,
{
}

/// The input has ended too early where the code says so, the caller's own
/// message is about data, the source's own error about the source, and
/// everything else about the syntax.
pub proof fn law_category(code: ErrorCode)
    ensures
        code.category() == Category::Eof <==> code == ErrorCode::EofWhileParsingList || code
            == ErrorCode::EofWhileParsingObject || code == ErrorCode::EofWhileParsingString || code
            == ErrorCode::EofWhileParsingValue,
        code.category() == Category::Data <==> code is Message,
        code.category() == Category::Io <==> code is Io,
{
}

/// The text of each code.
pub proof fn law_text(code: ErrorCode)
    ensures
        match code {
            ErrorCode::Message(m) => code.text() == m@,
            ErrorCode::Io(_) => code.text() == "I/O error"@,
            ErrorCode::EofWhileParsingList => code.text() == "EOF while parsing a list"@,
            ErrorCode::EofWhileParsingObject => code.text() == "EOF while parsing an object"@,
            ErrorCode::EofWhileParsingString => code.text() == "EOF while parsing a string"@,
            ErrorCode::EofWhileParsingValue => code.text() == "EOF while parsing a value"@,
            ErrorCode::ExpectedColon => code.text() == "expected `:`"@,
            ErrorCode::ExpectedListCommaOrEnd => code.text() == "expected `,` or `]`"@,
            ErrorCode::ExpectedObjectCommaOrEnd => code.text() == "expected `,` or `}`"@,
            ErrorCode::ExpectedObjectOrArray => code.text() == "expected `{` or `[`"@,
            ErrorCode::ExpectedSomeIdent => code.text() == "expected ident"@,
            ErrorCode::ExpectedSomeValue => code.text() == "expected value"@,
            ErrorCode::InvalidEscape => code.text() == "invalid escape"@,
            ErrorCode::InvalidNumber => code.text() == "invalid number"@,
            ErrorCode::NumberOutOfRange => code.text() == "number out of range"@,
            ErrorCode::InvalidUnicodeCodePoint => code.text() == "invalid unicode code point"@,
            ErrorCode::KeyMustBeAString => code.text() == "key must be a string"@,
            ErrorCode::LoneLeadingSurrogateInHexEscape => code.text()
                == "lone leading surrogate in hex escape"@,
            ErrorCode::TrailingCharacters => code.text() == "trailing characters"@,
            ErrorCode::UnexpectedEndOfHexEscape => code.text() == "unexpected end of hex escape"@,
            ErrorCode::RecursionLimitExceeded => code.text() == "recursion limit exceeded"@,
        },
{
}

} // verus!
