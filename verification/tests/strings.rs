use json_de::{from_slice, from_str, BytesOr, Deserializer, Head, Reference, Value};

fn text(s: &str) -> String {
    match from_str(s) {
        Ok(Value::String(t)) => t,
        other => panic!("{:?}", other),
    }
}

fn refused(s: &[u8]) -> (String, usize, usize) {
    let e = from_slice(s).unwrap_err();
    (String::from(e.code().description()), e.line(), e.column())
}

fn bytes(s: &[u8]) -> Vec<u8> {
    let mut de = Deserializer::from_slice(s);
    match de.deserialize_bytes() {
        Ok(BytesOr::Bytes(Reference::Borrowed(b))) => b.to_vec(),
        Ok(BytesOr::Bytes(Reference::Copied(b))) => b,
        other => panic!("{:?}", other),
    }
}

#[test]
fn plain_text_is_read_as_it_is() {
    assert_eq!(text("\"\""), "");
    assert_eq!(text("\"abc\""), "abc");
    assert_eq!(text("\"\u{e4}\u{20ac}\u{1f600}/'\""), "\u{e4}\u{20ac}\u{1f600}/'");
}

#[test]
fn escape_sequences_are_replaced() {
    assert_eq!(
        text("\"\\\"\\\\\\/\\b\\f\\n\\r\\t\""),
        "\"\\/\u{8}\u{c}\n\r\t"
    );
    assert_eq!(text("\"\\u0041\\u00e9\\u20AC\""), "A\u{e9}\u{20ac}");
    assert_eq!(text("\"x\\u0000y\""), "x\u{0}y");
    assert_eq!(text("\"\\uFFFF\\uD7FF\\uE000\""), "\u{ffff}\u{d7ff}\u{e000}");
}

#[test]
fn surrogate_pairs_are_joined() {
    assert_eq!(text("\"\\uD83D\\uDE00\""), "\u{1f600}");
    assert_eq!(text("\"\\ud800\\udc00\""), "\u{10000}");
    assert_eq!(text("\"\\uDBFF\\uDFFF\""), "\u{10ffff}");
}

#[test]
fn lone_surrogates_are_refused() {
    let lone = String::from("lone leading surrogate in hex escape");
    let end = String::from("unexpected end of hex escape");
    assert_eq!(refused(b"\"\\uDE00\""), (lone.clone(), 1, 7));
    assert_eq!(refused(b"\"\\uD83D\\u0041\""), (lone.clone(), 1, 13));
    assert_eq!(refused(b"\"\\uD83D\\uD83D\""), (lone, 1, 13));
    assert_eq!(refused(b"\"\\uD83D\""), (end.clone(), 1, 8));
    assert_eq!(refused(b"\"\\uD83Dx\""), (end.clone(), 1, 8));
    assert_eq!(refused(b"\"\\uD83D\\n\""), (end, 1, 9));
}

#[test]
fn unknown_escape_sequences_are_refused() {
    let invalid = String::from("invalid escape");
    assert_eq!(refused(b"\"\\x\""), (invalid.clone(), 1, 3));
    assert_eq!(refused(b"\"\\u12G4\""), (invalid.clone(), 1, 6));
    assert_eq!(refused(b"\"\\'\""), (invalid, 1, 3));
}

#[test]
fn control_characters_are_refused_in_text() {
    let code = String::from("invalid unicode code point");
    assert_eq!(refused(b"\"a\nb\""), (code.clone(), 2, 0));
    assert_eq!(refused(b"\"\x00\""), (code.clone(), 1, 2));
    assert_eq!(refused(b"\"\x1f\""), (code, 1, 2));
    assert_eq!(text("\"\u{20}\u{7f}\""), " \u{7f}");
}

#[test]
fn text_must_be_utf8() {
    let code = String::from("invalid unicode code point");
    assert_eq!(refused(b"\"\xff\""), (code.clone(), 1, 3));
    assert_eq!(refused(b"\"a\xe5\""), (code.clone(), 1, 4));
    assert_eq!(refused(b"\"\\n\xc3\""), (code.clone(), 1, 5));
    assert_eq!(refused(b"{\"\xff\":1}"), (code, 1, 4));
}

#[test]
fn unfinished_strings_are_refused() {
    let eof = String::from("EOF while parsing a string");
    assert_eq!(refused(b"\""), (eof.clone(), 1, 1));
    assert_eq!(refused(b"\"abc"), (eof.clone(), 1, 4));
    assert_eq!(refused(b"\"abc\\"), (eof.clone(), 1, 5));
    assert_eq!(refused(b"\"\\u12"), (eof.clone(), 1, 5));
    assert_eq!(refused(b"\"\\uD801"), (eof.clone(), 1, 7));
    assert_eq!(refused(b"\"\\uD801\\"), (eof, 1, 8));
}

#[test]
fn bytes_need_not_be_utf8() {
    let b = bytes(b"\"some bytes: \xe5\x00\xe5\"");
    assert_eq!(b[12], 0xe5);
    assert_eq!(b[13], 0);
    assert_eq!(b[14], 0xe5);
    assert_eq!(b.len(), 15);
}

#[test]
fn escape_sequences_have_to_be_valid_in_bytes_too() {
    let mut de = Deserializer::from_slice(b"\"invalid unicode surrogate: \\uD801\"");
    let e = de.deserialize_bytes().unwrap_err();
    assert_eq!(
        format!(
            "{} at line {} column {}",
            e.code().description(),
            e.line(),
            e.column()
        ),
        "unexpected end of hex escape at line 1 column 35"
    );
    assert_eq!(bytes(b"\"\\u00e9\\n\""), vec![0xc3, 0xa9, 0x0a]);
}

#[test]
fn bytes_are_those_of_the_text() {
    for s in ["\"\"", "\"abc\"", "\"a\\u20acb\"", "\"\u{1f600}\\n\""] {
        assert_eq!(bytes(s.as_bytes()), text(s).as_bytes());
    }
}

#[test]
fn other_values_are_read_where_bytes_may_stand() {
    let mut de = Deserializer::from_slice(b" [1]");
    match de.deserialize_byte_buf() {
        Ok(BytesOr::Other(v)) => assert_eq!(v, from_str("[1]").unwrap()),
        other => panic!("{:?}", other),
    }
}

#[test]
fn text_without_escape_sequences_is_borrowed() {
    let mut de = Deserializer::from_str("\"abc\" \"a\\nc\"");
    match de.parse_head() {
        Ok(Head::String(Reference::Borrowed(s))) => assert_eq!(s, "abc"),
        other => panic!("{:?}", other),
    }
    match de.parse_head() {
        Ok(Head::String(Reference::Copied(s))) => assert_eq!(s, "a\nc"),
        other => panic!("{:?}", other),
    }
}

#[test]
fn every_scalar_can_be_written_as_an_escape_sequence() {
    for n in (0x20u32..0x11_0000).step_by(97) {
        if let Some(c) = char::from_u32(n) {
            let mut units = [0u16; 2];
            let mut s = String::from("\"");
            for unit in c.encode_utf16(&mut units) {
                s.push_str(&format!("\\u{:04x}", unit));
            }
            s.push('"');
            assert_eq!(text(&s), c.to_string());
        }
    }
}
