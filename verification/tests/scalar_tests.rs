use clausewitz::parser::parse;
use clausewitz::scalar::parse_scalar;
use clausewitz::value::{Filter, Value};

fn coerce(s: &str) -> Value {
    parse_scalar(Value::Str(s.to_string()))
}

#[test]
fn test_scalar_sentinels() {
    assert_eq!(coerce("yes"), Value::Bool(true));
    assert_eq!(coerce("no"), Value::Bool(false));
    assert_eq!(coerce("none"), Value::Null);
}

#[test]
fn test_scalar_unsigned_integers() {
    assert_eq!(coerce("0"), Value::UInt(0));
    assert_eq!(coerce("42"), Value::UInt(42));
    assert_eq!(coerce("+5"), Value::UInt(5));
    assert_eq!(coerce("18446744073709551615"), Value::UInt(u64::MAX));
}

#[test]
fn test_scalar_integer_overflow_falls_back() {
    // One past the largest unsigned 64-bit integer: an integer no more,
    // but still number text, so it becomes a float.
    assert_eq!(
        coerce("18446744073709551616"),
        Value::Float("18446744073709551616".to_string())
    );
}

#[test]
fn test_scalar_floats() {
    assert_eq!(coerce("-0.5"), Value::Float("-0.5".to_string()));
    assert_eq!(coerce("1.23"), Value::Float("1.23".to_string()));
    assert_eq!(coerce(".5"), Value::Float(".5".to_string()));
    assert_eq!(coerce("2.5e-4"), Value::Float("2.5e-4".to_string()));
    assert_eq!(coerce("-3"), Value::Float("-3".to_string()));
    assert!("-0.5".parse::<f64>().unwrap() == -0.5);
}

#[test]
fn test_scalar_other_strings_stay() {
    assert_eq!(coerce("word"), Value::Str("word".to_string()));
    assert_eq!(coerce(""), Value::Str("".to_string()));
    assert_eq!(coerce("1.2.3"), Value::Str("1.2.3".to_string()));
    assert_eq!(coerce("nan"), Value::Str("nan".to_string()));
    assert_eq!(coerce("inf"), Value::Str("inf".to_string()));
    assert_eq!(coerce("5e"), Value::Str("5e".to_string()));
    assert_eq!(coerce("."), Value::Str(".".to_string()));
    assert_eq!(coerce("+"), Value::Str("+".to_string()));
}

#[test]
fn test_scalar_non_strings_pass_through() {
    assert_eq!(parse_scalar(Value::Null), Value::Null);
    assert_eq!(parse_scalar(Value::UInt(7)), Value::UInt(7));
    assert_eq!(
        parse_scalar(Value::Array(vec![Value::Str("yes".to_string())])),
        Value::Array(vec![Value::Str("yes".to_string())])
    );
}

#[test]
fn test_scalar_coercion_is_idempotent_on_samples() {
    for s in ["yes", "no", "none", "7", "-0.5", "word", "+", "1e9"] {
        let once = coerce(s);
        let twice = parse_scalar(coerce(s));
        assert_eq!(once, twice);
    }
}

#[test]
fn test_negative_float_value_in_a_document() {
    let actual = parse("speed = -0.5", &Filter::Bool(true)).unwrap();
    let expected = Value::Object(vec![(
        "speed".to_string(),
        Value::Float("-0.5".to_string()),
    )]);
    assert_eq!(actual, expected);
}
