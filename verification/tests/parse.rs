//! What the parser accepts, and what it produces.

use fancy_json::{parse_step, Error, FloatText, Number, ParseOptions, ParseStep, Value};

/// The shortest round-trip rendering of a finite float.
fn float_text(x: f64) -> Option<FloatText> {
    if x.is_finite() {
        FloatText::new(&format!("{}", x))
    } else {
        None
    }
}

/// Reads a document, supplying the float table the reader asks for.
fn parse(input: &str) -> Result<Value, Error> {
    let mut table: Vec<Option<FloatText>> = Vec::new();
    loop {
        match parse_step(input, ParseOptions::new(), &table) {
            ParseStep::Done(result) => return result,
            ParseStep::NeedFloats(literals) => {
                for literal in literals {
                    let value: f64 = literal.parse().expect("a literal the grammar accepted");
                    table.push(float_text(value));
                }
            }
        }
    }
}

/// The value as `f64`, when it is a number.
fn as_f64(v: &Value) -> Option<f64> {
    match v {
        Value::Number(Number::PosInt(n)) => Some(*n as f64),
        Value::Number(Number::NegInt(n)) => Some(*n as f64),
        Value::Number(Number::Float(t)) => Some(t.as_str().parse().unwrap()),
        _ => None,
    }
}

#[test]
fn parses_every_scalar() {
    assert_eq!(parse("null").unwrap(), Value::Null);
    assert_eq!(parse("true").unwrap(), Value::Bool(true));
    assert_eq!(parse("false").unwrap(), Value::Bool(false));
    assert_eq!(parse("\"hi\"").unwrap(), Value::from("hi"));
    assert_eq!(parse("0").unwrap(), Value::from(0));
}

#[test]
fn parses_containers() {
    let v = parse(r#"{"a":[1,2,{"b":null}]}"#).unwrap();
    let a = v.get("a").unwrap().as_array().unwrap();
    assert_eq!(a.len(), 3);
    assert_eq!(a[0], Value::from(1));
    assert_eq!(a[2].get("b"), Some(&Value::Null));
}

#[test]
fn ignores_whitespace_between_tokens() {
    let v = parse(" \t\r\n{ \"a\" : [ 1 , 2 ] } \t\r\n").unwrap();
    assert_eq!(v.get("a").unwrap().as_array().unwrap().len(), 2);
}

#[test]
fn an_integer_literal_stays_an_integer() {
    let v = parse("9007199254740993").unwrap();
    assert_eq!(v.as_u64(), Some(9_007_199_254_740_993));
    assert!(matches!(v, Value::Number(Number::PosInt(_))));

    let v = parse("-9007199254740993").unwrap();
    assert_eq!(v.as_i64(), Some(-9_007_199_254_740_993));
    assert!(matches!(v, Value::Number(Number::NegInt(_))));
}

#[test]
fn u64_max_survives() {
    let v = parse("18446744073709551615").unwrap();
    assert_eq!(v.as_u64(), Some(u64::MAX));
}

#[test]
fn a_fraction_or_exponent_makes_it_a_float() {
    assert!(matches!(parse("1.5").unwrap(), Value::Number(Number::Float(_))));
    assert!(matches!(parse("1e3").unwrap(), Value::Number(Number::Float(_))));
    assert!(matches!(parse("1.0").unwrap(), Value::Number(Number::Float(_))));
    assert_eq!(as_f64(&parse("1e3").unwrap()), Some(1000.0));
    assert_eq!(as_f64(&parse("-0.5").unwrap()), Some(-0.5));
}

#[test]
fn an_integer_is_readable_as_a_float_but_not_the_reverse() {
    assert_eq!(as_f64(&parse("3").unwrap()), Some(3.0));
    assert_eq!(parse("3.0").unwrap().as_i64(), None);
    assert_eq!(parse("3.0").unwrap().as_u64(), None);
}

#[test]
fn a_negative_integer_is_not_readable_as_u64() {
    assert_eq!(parse("-1").unwrap().as_u64(), None);
    assert_eq!(parse("-1").unwrap().as_i64(), Some(-1));
}

#[test]
fn minus_zero_keeps_its_sign_as_a_float_but_zero_is_an_integer() {
    assert!(matches!(parse("0").unwrap(), Value::Number(Number::PosInt(0))));
    assert_eq!(parse("-0").unwrap().as_i64(), Some(0));
    assert_eq!(as_f64(&parse("-0.0").unwrap()), Some(-0.0));
}

#[test]
fn decodes_every_simple_escape() {
    let v = parse(r#""\"\\\/\b\f\n\r\t""#).unwrap();
    assert_eq!(v.as_str(), Some("\"\\/\u{8}\u{c}\n\r\t"));
}

#[test]
fn decodes_unicode_escapes() {
    assert_eq!(parse(r#""A""#).unwrap().as_str(), Some("A"));
    assert_eq!(parse(r#""é""#).unwrap().as_str(), Some("é"));
    assert_eq!(parse(r#""—""#).unwrap().as_str(), Some("—"));
}

#[test]
fn decodes_a_surrogate_pair() {
    assert_eq!(parse(r#""😀""#).unwrap().as_str(), Some("😀"));
}

#[test]
fn accepts_raw_multibyte_utf8() {
    assert_eq!(parse("\"日本語 😀\"").unwrap().as_str(), Some("日本語 😀"));
}

#[test]
fn object_keys_keep_their_insertion_order() {
    let v = parse(r#"{"z":1,"a":2,"m":3}"#).unwrap();
    let keys: Vec<&str> = v.as_object().unwrap().keys();
    assert_eq!(keys, ["z", "a", "m"]);
}

#[test]
fn a_duplicate_key_keeps_the_last_value_at_the_first_position() {
    let v = parse(r#"{"a":1,"b":2,"a":3}"#).unwrap();
    let obj = v.as_object().unwrap();
    assert_eq!(obj.get("a"), Some(&Value::from(3)));
    assert_eq!(obj.keys(), ["a", "b"]);
}

#[test]
fn empty_containers_are_distinct() {
    assert_ne!(parse("[]").unwrap(), parse("{}").unwrap());
    assert!(parse("[]").unwrap().as_array().unwrap().is_empty());
    assert!(parse("{}").unwrap().as_object().unwrap().is_empty());
}
