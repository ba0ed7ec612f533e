use json_de::{from_str, Category, Deserializer, Error, ErrorCode};

fn refused(s: &str) -> (String, usize, usize, Category) {
    let e = from_str(s).unwrap_err();
    assert_eq!(e.is_eof(), e.classify() == Category::Eof);
    (
        String::from(e.code().description()),
        e.line(),
        e.column(),
        e.classify(),
    )
}

fn eof(what: &str, line: usize, column: usize) -> (String, usize, usize, Category) {
    (
        format!("EOF while parsing {}", what),
        line,
        column,
        Category::Eof,
    )
}

fn syntax(what: &str, line: usize, column: usize) -> (String, usize, usize, Category) {
    (String::from(what), line, column, Category::Syntax)
}

#[test]
fn missing_values() {
    assert_eq!(refused(""), eof("a value", 1, 0));
    assert_eq!(refused(" \n "), eof("a value", 2, 1));
    assert_eq!(refused("{\"a\":"), eof("a value", 1, 5));
    assert_eq!(refused("{\"a\":1,"), eof("a value", 1, 7));
    assert_eq!(refused("[1,"), eof("a value", 1, 3));
}

#[test]
fn unfinished_arrays() {
    assert_eq!(refused("["), eof("a list", 1, 1));
    assert_eq!(refused("[1"), eof("a list", 1, 2));
    assert_eq!(refused("[1\n"), eof("a list", 2, 0));
    assert_eq!(refused("[[1]"), eof("a list", 1, 4));
}

#[test]
fn unfinished_objects() {
    assert_eq!(refused("{"), eof("an object", 1, 1));
    assert_eq!(refused("{\"a\""), eof("an object", 1, 4));
    assert_eq!(refused("{\"a\":1"), eof("an object", 1, 6));
}

#[test]
fn missing_punctuation() {
    assert_eq!(refused("{\"a\" 1}"), syntax("expected `:`", 1, 6));
    assert_eq!(refused("[1 2]"), syntax("expected `,` or `]`", 1, 4));
    assert_eq!(
        refused("{\"a\":1 \"b\":2}"),
        syntax("expected `,` or `}`", 1, 8)
    );
    assert_eq!(refused("[1}"), syntax("expected `,` or `]`", 1, 3));
}

#[test]
fn misplaced_characters() {
    assert_eq!(refused("x"), syntax("expected value", 1, 1));
    assert_eq!(refused("[1,]"), syntax("expected value", 1, 4));
    assert_eq!(refused("[,1]"), syntax("expected value", 1, 2));
    assert_eq!(refused("]"), syntax("expected value", 1, 1));
    assert_eq!(refused("{1:2}"), syntax("key must be a string", 1, 2));
    assert_eq!(refused("{\"a\":1,}"), syntax("key must be a string", 1, 8));
    assert_eq!(refused("{,}"), syntax("key must be a string", 1, 2));
}

#[test]
fn broken_words() {
    assert_eq!(refused("nul"), syntax("expected ident", 1, 3));
    assert_eq!(refused("nulx"), syntax("expected ident", 1, 4));
    assert_eq!(refused("tru"), syntax("expected ident", 1, 3));
    assert_eq!(refused("fals3"), syntax("expected ident", 1, 5));
    assert_eq!(refused("n"), syntax("expected ident", 1, 1));
}

#[test]
fn trailing_characters() {
    assert_eq!(refused("1 x"), syntax("trailing characters", 1, 3));
    assert_eq!(refused("nullx"), syntax("trailing characters", 1, 5));
    assert_eq!(refused("[]]"), syntax("trailing characters", 1, 3));
    assert_eq!(refused("{}\n{}"), syntax("trailing characters", 2, 1));
}

#[test]
fn places_count_lines_and_bytes() {
    assert_eq!(refused("[\n1,\n  x]"), syntax("expected value", 3, 3));
    assert_eq!(refused("[\"\u{20ac}\" x]"), syntax("expected `,` or `]`", 1, 8));
    assert_eq!(refused("\r\nx"), syntax("expected value", 2, 1));
}

#[test]
fn a_message_gets_a_place_once() {
    let mut de = Deserializer::from_str("[1]");
    assert!(matches!(de.next_char(), Ok(Some(b'['))));
    let e = de.fix_position(Error::message(String::from("no")));
    assert_eq!(e.code().description(), "no");
    assert_eq!((e.line(), e.column()), (1, 1));
    assert_eq!(e.classify(), Category::Data);
    assert!(matches!(de.next_char(), Ok(Some(b'1'))));
    let e = de.fix_position(e);
    assert_eq!((e.line(), e.column()), (1, 1));
}

#[test]
fn every_code_has_a_text() {
    let codes = [
        (ErrorCode::EofWhileParsingList, "EOF while parsing a list"),
        (ErrorCode::EofWhileParsingObject, "EOF while parsing an object"),
        (ErrorCode::EofWhileParsingString, "EOF while parsing a string"),
        (ErrorCode::EofWhileParsingValue, "EOF while parsing a value"),
        (ErrorCode::ExpectedColon, "expected `:`"),
        (ErrorCode::ExpectedListCommaOrEnd, "expected `,` or `]`"),
        (ErrorCode::ExpectedObjectCommaOrEnd, "expected `,` or `}`"),
        (ErrorCode::ExpectedObjectOrArray, "expected `{` or `[`"),
        (ErrorCode::ExpectedSomeIdent, "expected ident"),
        (ErrorCode::ExpectedSomeValue, "expected value"),
        (ErrorCode::InvalidEscape, "invalid escape"),
        (ErrorCode::InvalidNumber, "invalid number"),
        (ErrorCode::NumberOutOfRange, "number out of range"),
        (ErrorCode::InvalidUnicodeCodePoint, "invalid unicode code point"),
        (ErrorCode::KeyMustBeAString, "key must be a string"),
        (
            ErrorCode::LoneLeadingSurrogateInHexEscape,
            "lone leading surrogate in hex escape",
        ),
        (ErrorCode::TrailingCharacters, "trailing characters"),
        (ErrorCode::UnexpectedEndOfHexEscape, "unexpected end of hex escape"),
        (ErrorCode::RecursionLimitExceeded, "recursion limit exceeded"),
    ];
    for (code, text) in codes {
        assert_eq!(code.description(), text);
    }
}
