use json_de::{from_slice, from_str, Number, Value};

fn text(s: &str) -> Value {
    Value::String(String::from(s))
}

fn integer(n: u64) -> Value {
    Value::Number(Number::PosInt(n))
}

#[test]
fn words_are_read() {
    assert_eq!(from_str("null").unwrap(), Value::Null);
    assert_eq!(from_str("true").unwrap(), Value::Bool(true));
    assert_eq!(from_str("false").unwrap(), Value::Bool(false));
}

#[test]
fn arrays_are_read() {
    assert_eq!(from_str("[]").unwrap(), Value::Array(vec![]));
    assert_eq!(from_str("[ ]").unwrap(), Value::Array(vec![]));
    assert_eq!(
        from_str("[1, null , \"a\",[true]]").unwrap(),
        Value::Array(vec![
            integer(1),
            Value::Null,
            text("a"),
            Value::Array(vec![Value::Bool(true)]),
        ])
    );
}

#[test]
fn objects_are_read() {
    assert_eq!(from_str("{}").unwrap(), Value::Object(vec![]));
    assert_eq!(
        from_str("{ \"b\" : 1 , \"a\":{\"c\":[]} }").unwrap(),
        Value::Object(vec![
            (String::from("b"), integer(1)),
            (
                String::from("a"),
                Value::Object(vec![(String::from("c"), Value::Array(vec![]))]),
            ),
        ])
    );
}

#[test]
fn repeated_keys_are_kept_in_order() {
    assert_eq!(
        from_str("{\"a\":1,\"a\":2}").unwrap(),
        Value::Object(vec![
            (String::from("a"), integer(1)),
            (String::from("a"), integer(2)),
        ])
    );
}

#[test]
fn bytes_and_text_give_the_same_value() {
    let s = "{\"k\": [1, -2, 3.5, \"\u{e9}\", null]}";
    assert_eq!(from_str(s).unwrap(), from_slice(s.as_bytes()).unwrap());
}

#[test]
fn white_space_around_a_document_means_nothing() {
    let plain = from_str("[1,{\"a\":2}]").unwrap();
    assert_eq!(from_str(" \t\r\n[1,{\"a\":2}]\n\n \t").unwrap(), plain);
    assert_eq!(from_str("12 ").unwrap(), from_str("12").unwrap());
    // A form feed is no white space.
    assert!(from_str("\u{c}1").is_err());
}

#[test]
fn nesting_is_limited() {
    let fits = format!("{}{}", "[".repeat(127), "]".repeat(127));
    assert!(from_str(&fits).is_ok());
    let mixed = format!("{}1{}", "{\"a\":[".repeat(63), "]}".repeat(63));
    assert!(from_str(&mixed).is_ok());
    let deep = format!("{}{}", "[".repeat(128), "]".repeat(128));
    let e = from_str(&deep).unwrap_err();
    assert_eq!(e.code().description(), "recursion limit exceeded");
    assert_eq!((e.line(), e.column()), (1, 128));
    // What stands beside the nesting does not count.
    let wide = format!("[{}0]", "[],".repeat(1000));
    assert!(from_str(&wide).is_ok());
}
