use json_de::read::Cursor;
use json_de::{
    from_str, Category, Deserializer, Error, ErrorCode, Head, MapAccess, Number, Position, Read,
    Reference, SeqAccess, SliceRead, StrRead, Value,
};
use std::io;

fn text(s: &str) -> Value {
    Value::String(String::from(s))
}

fn integer(n: u64) -> Value {
    Value::Number(Number::PosInt(n))
}

fn what(e: &Error) -> (String, usize, usize) {
    (String::from(e.code().description()), e.line(), e.column())
}

#[test]
fn an_array_in_steps() {
    let mut de = Deserializer::from_str("[1, \"a\" ] ");
    assert!(matches!(de.parse_head(), Ok(Head::Array)));
    assert_eq!(de.remaining_depth(), 127);
    let mut access = SeqAccess::new();
    assert!(matches!(access.next_element(&mut de), Ok(true)));
    assert!(matches!(
        de.parse_head(),
        Ok(Head::Number(Number::PosInt(1)))
    ));
    assert!(matches!(access.next_element(&mut de), Ok(true)));
    assert!(matches!(
        de.parse_head(),
        Ok(Head::String(Reference::Borrowed("a")))
    ));
    assert!(matches!(access.next_element(&mut de), Ok(false)));
    // Asking again gives the same answer.
    assert!(matches!(access.next_element(&mut de), Ok(false)));
    assert!(matches!(de.exit_seq(), Ok(())));
    assert_eq!(de.remaining_depth(), 128);
    assert!(matches!(de.end(), Ok(())));
}

#[test]
fn an_object_in_steps() {
    let mut de = Deserializer::from_str("{\"a\" : null, \"b\":true}");
    assert!(matches!(de.parse_head(), Ok(Head::Object)));
    let mut access = MapAccess::new();
    assert!(matches!(access.next_key(&mut de), Ok(true)));
    assert_eq!(de.parse_value().unwrap(), text("a"));
    assert!(matches!(access.next_value(&mut de), Ok(())));
    assert!(matches!(de.parse_head(), Ok(Head::Null)));
    assert!(matches!(access.next_key(&mut de), Ok(true)));
    assert_eq!(de.parse_value().unwrap(), text("b"));
    assert!(matches!(access.next_value(&mut de), Ok(())));
    assert!(matches!(de.parse_head(), Ok(Head::Bool(true))));
    assert!(matches!(access.next_key(&mut de), Ok(false)));
    assert!(matches!(de.exit_map(), Ok(())));
    assert!(matches!(de.end(), Ok(())));
}

#[test]
fn a_container_that_is_left_early_has_trailing_characters() {
    let mut de = Deserializer::from_str("[1, 2]");
    assert!(matches!(de.parse_head(), Ok(Head::Array)));
    let mut access = SeqAccess::new();
    assert!(matches!(access.next_element(&mut de), Ok(true)));
    assert_eq!(de.parse_value().unwrap(), integer(1));
    let e = de.exit_seq().unwrap_err();
    assert_eq!(what(&e), (String::from("trailing characters"), 1, 3));
    let mut de = Deserializer::from_str("{\"a\":1}");
    assert!(matches!(de.parse_head(), Ok(Head::Object)));
    let e = de.exit_map().unwrap_err();
    assert_eq!(what(&e), (String::from("trailing characters"), 1, 2));
}

#[test]
fn options() {
    let read = |s: &str| Deserializer::from_str(s).deserialize_option();
    assert_eq!(read(" null").unwrap(), None);
    assert_eq!(read(" 1").unwrap(), Some(integer(1)));
    assert_eq!(read("[null]").unwrap(), Some(Value::Array(vec![Value::Null])));
    let e = read("nul").unwrap_err();
    assert_eq!(what(&e), (String::from("expected ident"), 1, 3));
    let e = read("").unwrap_err();
    assert_eq!(what(&e), (String::from("EOF while parsing a value"), 1, 0));
    // The same as the value it may be.
    for s in ["null", "nulx", "7", "{}", "x", "", "[1"] {
        match (read(s), from_str(s)) {
            (Ok(None), Ok(Value::Null)) => {}
            (Ok(Some(v)), Ok(w)) => assert_eq!(v, w),
            (Err(e), Err(f)) => assert_eq!(what(&e), what(&f)),
            other => panic!("{:?}", other),
        }
    }
}

#[test]
fn enums() {
    let mut de = Deserializer::from_str(" \"unit\" ");
    let v = de.deserialize_enum().unwrap();
    assert_eq!((v.name, v.data), (text("unit"), None));
    let mut de = Deserializer::from_str("{ \"tuple\" : [1, 2] } ");
    let v = de.deserialize_enum().unwrap();
    assert_eq!(v.name, text("tuple"));
    assert_eq!(v.data, Some(Value::Array(vec![integer(1), integer(2)])));
    assert_eq!(de.remaining_depth(), 128);
    assert!(matches!(de.end(), Ok(())));
}

#[test]
fn enums_that_are_refused() {
    let read = |s: &str| what(&Deserializer::from_str(s).deserialize_enum().unwrap_err());
    assert_eq!(read("1"), (String::from("expected value"), 1, 1));
    assert_eq!(read(""), (String::from("EOF while parsing a value"), 1, 0));
    assert_eq!(read("{\"a\"}"), (String::from("expected `:`"), 1, 5));
    // The error points before the place where the brace was due.
    assert_eq!(read("{\"a\":1 x}"), (String::from("expected value"), 1, 7));
    assert_eq!(read("{\"a\":1,\"b\":2}"), (String::from("expected value"), 1, 6));
    assert_eq!(
        read("{\"a\":1 "),
        (String::from("EOF while parsing an object"), 1, 7)
    );
}

#[test]
fn a_failure_inside_an_enum_costs_its_level() {
    let mut de = Deserializer::from_str("{\"a\":x}");
    assert!(de.deserialize_enum().is_err());
    assert_eq!(de.remaining_depth(), 127);
    let mut de = Deserializer::from_str("{\"a\":1,");
    assert!(de.deserialize_enum().is_err());
    assert_eq!(de.remaining_depth(), 128);
}

#[test]
fn bytes_of_the_input() {
    let mut de = Deserializer::from_str("ab");
    assert!(matches!(de.peek(), Ok(Some(b'a'))));
    assert!(matches!(de.peek_or_null(), Ok(b'a')));
    assert_eq!(de.byte_offset(), 0);
    de.eat_char();
    assert_eq!(de.byte_offset(), 1);
    assert!(matches!(de.next_char(), Ok(Some(b'b'))));
    assert!(matches!(de.next_char(), Ok(None)));
    assert!(matches!(de.next_char_or_null(), Ok(0)));
    assert!(matches!(de.peek(), Ok(None)));
    assert!(matches!(de.peek_or_null(), Ok(0)));
    let e = de.error(ErrorCode::ExpectedColon);
    assert_eq!(what(&e), (String::from("expected `:`"), 1, 2));
    let mut de = Deserializer::from_str(" \nx");
    assert!(matches!(de.parse_whitespace(), Ok(Some(b'x'))));
    let e = de.peek_error(ErrorCode::ExpectedColon);
    assert_eq!(what(&e), (String::from("expected `:`"), 2, 1));
    assert!(matches!(de.parse_ident(b"x"), Ok(())));
}

#[test]
fn sources_in_memory() {
    let mut read = SliceRead::new(b"a\nb");
    assert!(matches!(read.next(), Ok(Some(b'a'))));
    assert!(matches!(read.peek(), Ok(Some(b'\n'))));
    assert_eq!(read.position(), Position { line: 1, column: 1 });
    assert_eq!(read.peek_position(), Position { line: 2, column: 0 });
    read.discard();
    assert_eq!(read.byte_offset(), 2);
    assert_eq!(read.lend(0, 2), Some(&b"a\n"[..]));
    let mut read = StrRead::new("\u{e9}");
    assert!(matches!(read.next(), Ok(Some(0xc3))));
    assert!(matches!(read.next(), Ok(Some(0xa9))));
    assert!(matches!(read.next(), Ok(None)));
    assert_eq!(read.position(), Position { line: 1, column: 2 });
}

/// A source that lends nothing and may fail behind its last byte.
struct Wire {
    bytes: Vec<u8>,
    pos: usize,
    broken: bool,
}

impl Wire {
    fn new(s: &str, broken: bool) -> Wire {
        Wire {
            bytes: s.as_bytes().to_vec(),
            pos: 0,
            broken,
        }
    }

    fn place(&self, n: usize) -> Position {
        let (mut line, mut column) = (1, 0);
        for b in &self.bytes[..n] {
            if *b == b'\n' {
                line += 1;
                column = 0;
            } else {
                column += 1;
            }
        }
        Position { line, column }
    }
}

impl<'de> Read<'de> for Wire {
    // The state of the source is spoken of in contracts and never computed.
    fn view(&self) -> Cursor {
        unreachable!()
    }

    fn peeked(&self) -> bool {
        unreachable!()
    }

    fn next(&mut self) -> Result<Option<u8>, io::Error> {
        let b = self.peek()?;
        if b.is_some() {
            self.pos += 1;
        }
        Ok(b)
    }

    fn peek(&mut self) -> Result<Option<u8>, io::Error> {
        if self.pos < self.bytes.len() {
            Ok(Some(self.bytes[self.pos]))
        } else if self.broken {
            Err(io::Error::new(io::ErrorKind::Other, "gone"))
        } else {
            Ok(None)
        }
    }

    fn discard(&mut self) {
        self.pos += 1;
    }

    fn position(&self) -> Position {
        self.place(self.pos)
    }

    fn peek_position(&self) -> Position {
        self.place((self.pos + 1).min(self.bytes.len()))
    }

    fn byte_offset(&self) -> usize {
        self.pos
    }

    fn lend(&self, _start: usize, _end: usize) -> Option<&'de [u8]> {
        None
    }
}

#[test]
fn places_are_counted_byte_by_byte() {
    let mut place = Position { line: 1, column: 0 };
    for (byte, line, column) in [(b'a', 1, 1), (b'\n', 2, 0), (b'\n', 3, 0), (0xff, 3, 1)] {
        place = place.behind(byte);
        assert_eq!(place, Position { line, column });
    }
    let last = Position {
        line: usize::MAX,
        column: 4,
    };
    assert_eq!(
        last.behind(b'\n'),
        Position {
            line: usize::MAX,
            column: 0
        }
    );
}

#[test]
fn white_space_before_a_failure_is_consumed() {
    for (s, consumed) in [("", 0), (" \n\t", 3), ("  1 ", 2)] {
        let mut de = Deserializer::new(Wire::new(s, true));
        let r = de.parse_whitespace();
        assert_eq!(de.byte_offset(), consumed);
        match r {
            Ok(b) => assert_eq!(b, Some(b'1')),
            Err(e) => {
                assert_eq!((e.line(), e.column()), (0, 0));
                match e.code() {
                    ErrorCode::Io(e) => assert_eq!(e.to_string(), "gone"),
                    other => panic!("{:?}", other),
                }
            }
        }
    }
}

/// A source that fails once at the byte `at` and then goes on.
struct Shaky {
    wire: Wire,
    at: usize,
}

impl<'de> Read<'de> for Shaky {
    // The state of the source is spoken of in contracts and never computed.
    fn view(&self) -> Cursor {
        unreachable!()
    }

    fn peeked(&self) -> bool {
        unreachable!()
    }

    fn next(&mut self) -> Result<Option<u8>, io::Error> {
        let b = self.peek()?;
        if b.is_some() {
            self.wire.pos += 1;
        }
        Ok(b)
    }

    fn peek(&mut self) -> Result<Option<u8>, io::Error> {
        if self.wire.pos == self.at {
            self.at = usize::MAX;
            return Err(io::Error::new(io::ErrorKind::WouldBlock, "later"));
        }
        self.wire.peek()
    }

    fn discard(&mut self) {
        self.wire.pos += 1;
    }

    fn position(&self) -> Position {
        self.wire.position()
    }

    fn peek_position(&self) -> Position {
        self.wire.peek_position()
    }

    fn byte_offset(&self) -> usize {
        self.wire.pos
    }

    fn lend(&self, _start: usize, _end: usize) -> Option<&'de [u8]> {
        None
    }
}

#[test]
fn an_error_of_the_source_stays_the_first_one() {
    // In the array the closing bracket is still read, and the error is put
    // there; in the number it is put where the source failed.
    for (s, at, place, consumed) in [
        ("[1, \"a\"  ]", 8, (1, 10), 10),
        ("[12]", 3, (1, 3), 4),
        ("12]", 2, (1, 2), 2),
        ("nulls", 2, (0, 0), 2),
    ] {
        let wire = Wire::new(s, false);
        let mut de = Deserializer::new(Shaky { wire, at });
        let e = de.parse_value().unwrap_err();
        match e.code() {
            ErrorCode::Io(e) => assert_eq!(e.to_string(), "later"),
            other => panic!("{:?}", other),
        }
        assert_eq!((e.line(), e.column()), place);
        assert_eq!(de.byte_offset(), consumed);
    }
}

#[test]
fn a_refusal_stays_one_where_the_source_fails_later() {
    // `x` is refused; then the source fails where the bracket is looked for.
    let mut de = Deserializer::new(Wire::new("[nux", true));
    let e = de.parse_value().unwrap_err();
    assert_eq!(what(&e), (String::from("expected ident"), 1, 4));
    let mut de = Deserializer::new(Wire::new("1 x", true));
    assert_eq!(de.parse_value().unwrap(), integer(1));
    let e = de.end().unwrap_err();
    assert_eq!(what(&e), (String::from("trailing characters"), 1, 3));
    assert_eq!(de.byte_offset(), 2);
}

#[test]
fn a_source_that_does_not_lend_gives_copies() {
    let mut de = Deserializer::new(Wire::new("\"abc\"", false));
    match de.parse_head() {
        Ok(Head::String(Reference::Copied(s))) => assert_eq!(s, "abc"),
        other => panic!("{:?}", other),
    }
}

#[test]
fn a_source_that_does_not_lend_gives_the_same_values() {
    for s in [
        "{\"a\\n\": [1, 2.5e3, \"\u{20ac}\"], \"b\": null}",
        "[1, 2",
        "[tru]",
        "[1]]",
        "\"abc",
        "-",
    ] {
        let mut de = Deserializer::new(Wire::new(s, false));
        let other = match de.parse_value() {
            Ok(v) => de.end().map(|_| v),
            Err(e) => Err(e),
        };
        match (other, from_str(s)) {
            (Ok(v), Ok(w)) => assert_eq!(v, w),
            (Err(e), Err(f)) => assert_eq!(what(&e), what(&f)),
            other => panic!("{:?}", other),
        }
    }
}

#[test]
fn a_broken_source_is_reported() {
    for s in ["", "[1", "{\"a\"", "\"abc", "nul", "12", "1e", "[1,"] {
        let mut de = Deserializer::new(Wire::new(s, true));
        let e = de.parse_value().unwrap_err();
        assert!(matches!(e.code(), ErrorCode::Io(_)));
        assert_eq!(e.classify(), Category::Io);
        assert_eq!(e.code().description(), "I/O error");
    }
    // Inside a number or a container the error is given a place.
    for (s, place) in [
        ("", (0, 0)),
        ("\"abc", (0, 0)),
        ("nul", (0, 0)),
        ("12", (1, 2)),
        ("[1", (1, 2)),
        ("[\n\"abc", (2, 4)),
        ("{\"a\"", (1, 4)),
    ] {
        let mut de = Deserializer::new(Wire::new(s, true));
        let e = de.parse_value().unwrap_err();
        assert_eq!((e.line(), e.column()), place);
    }
    // What stands before the failure is read, and errors in it come first.
    let mut de = Deserializer::new(Wire::new("[1] x", true));
    assert_eq!(de.parse_value().unwrap(), Value::Array(vec![integer(1)]));
    let e = Deserializer::new(Wire::new("[1 x", true)).parse_value();
    assert_eq!(
        what(&e.unwrap_err()),
        (String::from("expected `,` or `]`"), 1, 4)
    );
}
