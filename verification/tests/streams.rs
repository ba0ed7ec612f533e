use json_de::{from_str, Deserializer, SliceRead, StreamDeserializer, Value};

/// The values of a stream, the offset it stops at, and the error if it stops
/// with one.
fn run(data: &[u8]) -> (Vec<Value>, usize, Option<String>) {
    let mut stream = Deserializer::from_slice(data).into_iter();
    let mut values = vec![];
    loop {
        match stream.next() {
            Some(Ok(v)) => values.push(v),
            Some(Err(e)) => {
                let text = String::from(e.code().description());
                return (values, stream.byte_offset(), Some(text));
            }
            None => return (values, stream.byte_offset(), None),
        }
    }
}

#[test]
fn a_stream_of_containers_is_read() {
    let (values, offset, error) = run(b"{\"k\": 3}  {}  [0, 1, 2]");
    assert_eq!(
        values,
        vec![
            from_str("{\"k\": 3}").unwrap(),
            from_str("{}").unwrap(),
            from_str("[0, 1, 2]").unwrap(),
        ]
    );
    assert_eq!(offset, 23);
    assert_eq!(error, None);
}

#[test]
fn offsets_are_counted() {
    let data = b"[0] [1] [";
    let mut stream = Deserializer::from_slice(data).into_iter();
    assert_eq!(stream.byte_offset(), 0);
    assert_eq!(stream.next().unwrap().unwrap(), from_str("[0]").unwrap());
    assert_eq!(stream.byte_offset(), 3);
    assert_eq!(stream.next().unwrap().unwrap(), from_str("[1]").unwrap());
    assert_eq!(stream.byte_offset(), 7);
    let e = stream.next().unwrap().unwrap_err();
    assert!(e.is_eof());
    assert_eq!(stream.byte_offset(), 8);
    assert_eq!(&data[stream.byte_offset()..], b"[");
}

#[test]
fn offsets_never_go_back() {
    for data in ["[0] {} x", "[[1],\n2] [nul", " {\"a\":1} ", "[1", "x"] {
        let mut stream = Deserializer::from_str(data).into_iter();
        let mut last = stream.byte_offset();
        for _ in 0..6 {
            let _ = stream.next();
            let now = stream.byte_offset();
            assert!(last <= now && now <= data.len());
            last = now;
        }
    }
}

#[test]
fn scalars_are_refused_at_the_top() {
    for s in ["null", "true", "1", "\"a\"", "x"] {
        let (values, offset, error) = run(format!("[] {}", s).as_bytes());
        assert_eq!(values.len(), 1);
        assert_eq!(offset, 2);
        assert_eq!(error, Some(String::from("expected `{` or `[`")));
    }
}

#[test]
fn trailing_white_space_counts_at_the_end() {
    assert_eq!(run(b"  "), (vec![], 2, None));
    assert_eq!(run(b"[] \n "), (vec![Value::Array(vec![])], 5, None));
    assert_eq!(run(b""), (vec![], 0, None));
}

#[test]
fn a_stream_can_be_resumed_anywhere() {
    let data: &[u8] = b" [0] {\"a\":[true,\"]\"]} [1.5e3,null][[]] ";
    let (whole, _, error) = run(data);
    assert_eq!(error, None);
    assert_eq!(whole.len(), 4);
    for cut in 0..data.len() + 1 {
        let (old, more) = data.split_at(cut);
        let (mut values, offset, _) = run(old);
        let mut rest = old[offset..].to_vec();
        rest.extend_from_slice(more);
        let (last, _, error) = run(&rest);
        assert_eq!(error, None);
        values.extend(last);
        assert_eq!(values, whole);
    }
}

#[test]
fn a_stream_that_breaks_off_in_a_word_is_refused_and_resumed() {
    let (values, offset, error) = run(b"[nul");
    assert_eq!(values.len(), 0);
    assert_eq!(offset, 0);
    assert_eq!(error, Some(String::from("expected ident")));
    assert_eq!(run(b"[null]").0.len(), 1);
}

#[test]
fn a_single_container_is_a_stream_of_one() {
    let s = " {\"a\": [1, 2]}\n";
    assert_eq!(run(s.as_bytes()).0, vec![from_str(s).unwrap()]);
}

#[test]
fn a_stream_over_a_source() {
    let mut stream = StreamDeserializer::new(SliceRead::new(b"[]"));
    assert_eq!(stream.byte_offset(), 0);
    assert_eq!(stream.next().unwrap().unwrap(), Value::Array(vec![]));
    assert!(stream.next().is_none());
    assert_eq!(stream.byte_offset(), 2);
}

#[test]
fn a_stream_in_steps() {
    let mut stream = Deserializer::from_str(" [] {}").into_iter();
    assert!(matches!(stream.begin(), Ok(true)));
    assert_eq!(stream.byte_offset(), 1);
    assert_eq!(
        stream.deserializer().parse_value().unwrap(),
        Value::Array(vec![])
    );
    assert_eq!(stream.byte_offset(), 1);
    stream.finish();
    assert_eq!(stream.byte_offset(), 3);
    assert_eq!(stream.remaining_depth(), 128);
    assert!(matches!(stream.begin(), Ok(true)));
    assert_eq!(
        stream.deserializer().parse_value().unwrap(),
        Value::Object(vec![])
    );
    stream.finish();
    assert!(matches!(stream.begin(), Ok(false)));
    assert_eq!(stream.byte_offset(), 6);
}

#[test]
fn a_value_refused_for_its_nesting_costs_a_level() {
    let data = format!("{}{} []", "[".repeat(128), "]".repeat(128));
    let mut de = Deserializer::from_str(&data);
    assert_eq!(de.remaining_depth(), 128);
    let e = de.parse_value().unwrap_err();
    assert_eq!(e.code().description(), "recursion limit exceeded");
    assert_eq!(de.remaining_depth(), 127);
}
