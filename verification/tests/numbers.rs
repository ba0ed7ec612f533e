use json_de::range::is_overflow;
use json_de::{from_str, Decimal, Deserializer, Number, Value};

fn number(s: &str) -> Number {
    match from_str(s) {
        Ok(Value::Number(n)) => n,
        other => panic!("{:?}", other),
    }
}

fn float(positive: bool, significand: u64, exponent: i32) -> Number {
    Number::Float(Decimal {
        positive,
        significand,
        exponent,
    })
}

fn refused(s: &str) -> (String, usize, usize) {
    let e = from_str(s).unwrap_err();
    (String::from(e.code().description()), e.line(), e.column())
}

fn invalid(column: usize) -> (String, usize, usize) {
    (String::from("invalid number"), 1, column)
}

fn out_of_range(column: usize) -> (String, usize, usize) {
    (String::from("number out of range"), 1, column)
}

#[test]
fn integers_without_sign() {
    assert_eq!(number("0"), Number::PosInt(0));
    assert_eq!(number("7"), Number::PosInt(7));
    assert_eq!(number("1234567890"), Number::PosInt(1234567890));
    assert_eq!(number("18446744073709551615"), Number::PosInt(u64::MAX));
}

#[test]
fn integers_with_sign() {
    assert_eq!(number("-0"), Number::NegInt(0));
    assert_eq!(number("-1"), Number::NegInt(-1));
    assert_eq!(number("-9223372036854775808"), Number::NegInt(i64::MIN));
    assert_eq!(
        number("-9223372036854775809"),
        float(false, 9223372036854775809, 0)
    );
    assert_eq!(number("-18446744073709551615"), float(false, u64::MAX, 0));
}

#[test]
fn long_integers_keep_their_leading_digits() {
    assert_eq!(
        number("18446744073709551616"),
        float(true, 1844674407370955161, 1)
    );
    assert_eq!(
        number("123456789012345678901234567890"),
        float(true, 12345678901234567890, 10)
    );
    assert_eq!(
        number("-99999999999999999999999"),
        float(false, 9999999999999999999, 4)
    );
    assert_eq!(
        number("123456789012345678901234567890.5e-3"),
        float(true, 12345678901234567890, 7)
    );
}

#[test]
fn fractions_shift_the_point() {
    assert_eq!(number("3.25"), float(true, 325, -2));
    assert_eq!(number("-0.001"), float(false, 1, -3));
    assert_eq!(number("0.0"), float(true, 0, -1));
    assert_eq!(number("1.50"), float(true, 150, -2));
    // Digits that do not fit any more are dropped.
    assert_eq!(
        number("0.12345678901234567890123"),
        float(true, 12345678901234567890, -20)
    );
}

#[test]
fn exponents_shift_the_point() {
    assert_eq!(number("1e5"), float(true, 1, 5));
    assert_eq!(number("1E+5"), float(true, 1, 5));
    assert_eq!(number("-1e-5"), float(false, 1, -5));
    assert_eq!(number("12.5e3"), float(true, 125, 2));
    assert_eq!(number("12.5E-03"), float(true, 125, -4));
    assert_eq!(number("1e007"), float(true, 1, 7));
}

#[test]
fn exponents_saturate() {
    assert_eq!(number("0.1e-2147483647"), float(true, 1, i32::MIN));
    assert_eq!(number("0.01e-2147483647"), float(true, 1, i32::MIN));
    assert_eq!(number("1e-99999999999"), float(true, 0, 0));
    assert_eq!(number("-0e99999999999"), float(false, 0, 0));
    assert_eq!(number("0e2147483647"), float(true, 0, i32::MAX));
}

#[test]
fn numbers_beyond_every_double_are_refused() {
    assert_eq!(number("1e308"), float(true, 1, 308));
    assert_eq!(
        number("17976931348623157e292"),
        float(true, 17976931348623157, 292)
    );
    assert_eq!(refused("2e308"), out_of_range(5));
    assert_eq!(refused("17976931348623159e292"), out_of_range(21));
    assert_eq!(refused("1e309"), out_of_range(5));
    assert_eq!(refused("-1e400"), out_of_range(6));
    assert_eq!(refused("1e99999999999"), out_of_range(12));
    assert_eq!(refused(&format!("1{}", "0".repeat(309))), out_of_range(310));
}

#[test]
fn malformed_numbers_are_refused() {
    assert_eq!(refused("-"), invalid(1));
    assert_eq!(refused("-a"), invalid(2));
    assert_eq!(refused("00"), invalid(2));
    assert_eq!(refused("01"), invalid(2));
    assert_eq!(refused("-01"), invalid(3));
    assert_eq!(refused("1."), invalid(2));
    assert_eq!(refused("1.x"), invalid(3));
    assert_eq!(refused("1.e3"), invalid(3));
    assert_eq!(refused("1e"), invalid(2));
    assert_eq!(refused("1e+"), invalid(3));
    assert_eq!(refused("1ex"), invalid(3));
    assert_eq!(refused("1e-x"), invalid(4));
}

#[test]
fn digits_without_room_count_by_their_number() {
    for (s, exponent, consumed) in [
        ("", 2, 0),
        ("x", 2, 0),
        ("123x", 5, 3),
        ("999", 5, 3),
        ("000]", 5, 3),
    ] {
        let mut de = Deserializer::from_str(s);
        assert_eq!(
            de.parse_long_integer(true, 5, 2).unwrap(),
            float(true, 5, exponent)
        );
        assert_eq!(de.byte_offset(), consumed);
    }
}

#[test]
fn decimals_without_room_have_no_effect() {
    for (s, significand, taken, consumed) in [
        (".5", u64::MAX, 1, 2),
        (".59", u64::MAX, 1, 3),
        (".5000001,", u64::MAX, 1, 8),
        (".6", 1844674407370955161, 0, 2),
        (".699]", 1844674407370955161, 0, 4),
    ] {
        let mut de = Deserializer::from_str(s);
        assert!(matches!(de.peek(), Ok(Some(b'.'))));
        assert_eq!(
            de.parse_decimal(true, 1844674407370955161, 7).unwrap(),
            float(true, significand, 7 - taken)
        );
        assert_eq!(de.byte_offset(), consumed);
    }
}

#[test]
fn the_spelling_of_an_exponent_does_not_matter() {
    for (s, consumed) in [("e5", 2), ("E5", 2), ("e+5", 3), ("e005", 4), ("E+0005]", 6)] {
        let mut de = Deserializer::from_str(s);
        assert!(de.peek().is_ok());
        assert_eq!(de.parse_exponent(false, 3, -1).unwrap(), float(false, 3, 4));
        assert_eq!(de.byte_offset(), consumed);
    }
    let mut de = Deserializer::from_str("e-5x");
    assert!(de.peek().is_ok());
    assert_eq!(de.parse_exponent(false, 3, -1).unwrap(), float(false, 3, -6));
    assert_eq!(de.byte_offset(), 3);
}

fn product(significand: u64, exponent: i32) -> f64 {
    let power: f64 = format!("1e{}", exponent).parse().unwrap();
    significand as f64 * power
}

#[test]
fn overflow_is_decided_as_doubles_decide_it() {
    for exponent in 0..309 {
        // The least significand whose product is infinite, if there is one.
        let (mut low, mut high) = (0u64, u64::MAX);
        while low < high {
            let middle = low + (high - low) / 2;
            if product(middle, exponent).is_infinite() {
                high = middle;
            } else {
                low = middle + 1;
            }
        }
        for s in [
            0,
            1,
            low / 2,
            low.saturating_sub(2),
            low.saturating_sub(1),
            low,
            low.saturating_add(1),
            low.saturating_add(1025),
            u64::MAX - 1024,
            u64::MAX,
        ] {
            assert_eq!(
                is_overflow(s, exponent),
                product(s, exponent).is_infinite(),
                "{}e{}",
                s,
                exponent
            );
        }
    }
}

#[test]
fn overflow_outside_the_exponents_of_doubles() {
    assert!(is_overflow(1, 309));
    assert!(is_overflow(1, i32::MAX));
    assert!(!is_overflow(0, i32::MAX));
    assert!(!is_overflow(u64::MAX, -1));
    assert!(!is_overflow(u64::MAX, i32::MIN));
}
