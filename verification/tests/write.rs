//! What the writers emit, and what round-trips.

use fancy_json::{
    parse_step, to_string, to_string_canonical, to_string_pretty, Error, FloatText, Number,
    Object, ParseOptions, ParseStep, Value,
};

/// The shortest round-trip rendering of a finite float.
fn float_text(x: f64) -> Option<FloatText> {
    if x.is_finite() {
        FloatText::new(&format!("{}", x))
    } else {
        None
    }
}

/// Reads a document, supplying the float table the reader asks for.
fn parse(input: &str) -> Result<Value, Error> {
    let mut table: Vec<Option<FloatText>> = Vec::new();
    loop {
        match parse_step(input, ParseOptions::new(), &table) {
            ParseStep::Done(result) => return result,
            ParseStep::NeedFloats(literals) => {
                for literal in literals {
                    let value: f64 = literal.parse().expect("a literal the grammar accepted");
                    table.push(float_text(value));
                }
            }
        }
    }
}

/// The value as `f64`, when it is a number.
fn as_f64(v: &Value) -> Option<f64> {
    match v {
        Value::Number(Number::PosInt(n)) => Some(*n as f64),
        Value::Number(Number::NegInt(n)) => Some(*n as f64),
        Value::Number(Number::Float(t)) => Some(t.as_str().parse().unwrap()),
        _ => None,
    }
}

/// A float as a value: `null` when it is not finite.
fn float_value(x: f64) -> Value {
    match float_text(x) {
        Some(t) => Value::Number(Number::Float(t)),
        None => Value::Null,
    }
}

#[test]
fn writes_every_scalar() {
    assert_eq!(to_string(&Value::Null), "null");
    assert_eq!(to_string(&Value::Bool(true)), "true");
    assert_eq!(to_string(&Value::from(0)), "0");
    assert_eq!(to_string(&Value::from(-7)), "-7");
    assert_eq!(to_string(&Value::from("hi")), "\"hi\"");
}

#[test]
fn writes_compactly_with_no_spaces() {
    let v = parse(r#"{ "a" : [ 1 , 2 ] }"#).unwrap();
    assert_eq!(to_string(&v), r#"{"a":[1,2]}"#);
}

#[test]
fn a_float_keeps_a_decimal_point_so_it_round_trips_as_a_float() {
    let v = parse("3.0").unwrap();
    assert_eq!(to_string(&v), "3.0");
    assert_eq!(to_string(&parse("1e3").unwrap()), "1000.0");
    assert_eq!(to_string(&parse("-0.0").unwrap()), "-0.0");
    assert_eq!(to_string(&parse("1.5").unwrap()), "1.5");
}

#[test]
fn a_float_round_trips_exactly() {
    for text in [
        "0.1",
        "1e-7",
        "1.7976931348623157e308",
        "5e-324",
        "123456789.123456789",
    ] {
        let once = parse(text).unwrap();
        let twice = parse(&to_string(&once)).unwrap();
        assert_eq!(as_f64(&once), as_f64(&twice), "{text} did not round-trip");
    }
}

#[test]
fn escapes_exactly_what_json_requires_and_no_more() {
    let v = Value::from("q\"b\\s\u{8}\u{c}\n\r\tz\u{1}");
    assert_eq!(to_string(&v), r#""q\"b\\s\b\f\n\r\tz\u0001""#);
}

#[test]
fn does_not_escape_the_solidus_or_non_ascii() {
    assert_eq!(
        to_string(&Value::from("https://a.example/b")),
        "\"https://a.example/b\""
    );
    assert_eq!(to_string(&Value::from("日本語 😀")), "\"日本語 😀\"");
    assert_eq!(to_string(&Value::from("—")), "\"—\"");
}

#[test]
fn preserves_insertion_order() {
    let v = parse(r#"{"z":1,"a":2}"#).unwrap();
    assert_eq!(to_string(&v), r#"{"z":1,"a":2}"#);
}

#[test]
fn canonical_output_sorts_keys_at_every_depth() {
    let v = parse(r#"{"z":{"y":1,"b":2},"a":[{"d":1,"c":2}]}"#).unwrap();
    assert_eq!(
        to_string_canonical(&v),
        r#"{"a":[{"c":2,"d":1}],"z":{"b":2,"y":1}}"#
    );
    assert_eq!(to_string_canonical(&parse("[3,1,2]").unwrap()), "[3,1,2]");
}

#[test]
fn canonical_output_is_stable_across_insertion_orders() {
    let a = parse(r#"{"a":1,"b":2}"#).unwrap();
    let b = parse(r#"{"b":2,"a":1}"#).unwrap();
    assert_ne!(to_string(&a), to_string(&b));
    assert_eq!(to_string_canonical(&a), to_string_canonical(&b));
}

#[test]
fn canonical_key_order_is_by_unicode_scalar_value() {
    let v = parse(r#"{"b":1,"A":2,"a":3,"É":4,"1":5}"#).unwrap();
    assert_eq!(
        to_string_canonical(&v),
        r#"{"1":5,"A":2,"a":3,"b":1,"É":4}"#
    );
}

#[test]
fn pretty_output_indents_and_round_trips() {
    let v = parse(r#"{"a":[1,{"b":null}],"c":{}}"#).unwrap();
    let pretty = to_string_pretty(&v, 2);
    assert_eq!(
        pretty,
        "{\n  \"a\": [\n    1,\n    {\n      \"b\": null\n    }\n  ],\n  \"c\": {}\n}"
    );
    assert_eq!(parse(&pretty).unwrap(), v);
}

#[test]
fn pretty_output_keeps_empty_containers_on_one_line() {
    assert_eq!(to_string_pretty(&parse("[]").unwrap(), 2), "[]");
    assert_eq!(to_string_pretty(&parse("{}").unwrap(), 2), "{}");
}

#[test]
fn every_document_round_trips_through_both_writers() {
    let docs = [
        "null",
        "[]",
        "{}",
        r#"{"a":1,"b":[true,false,null],"c":{"d":"e"}}"#,
        r#"["\u0001","\\","\"","日本語"]"#,
        "[0,-0,1.5,-2.25,1e-7]",
        "18446744073709551615",
        "-9223372036854775808",
    ];
    for doc in docs {
        let v = parse(doc).unwrap();
        assert_eq!(parse(&to_string(&v)).unwrap(), v, "compact: {doc}");
        assert_eq!(
            parse(&to_string_canonical(&v)).unwrap(),
            v,
            "canonical: {doc}"
        );
        assert_eq!(parse(&to_string_pretty(&v, 4)).unwrap(), v, "pretty: {doc}");
    }
}

#[test]
fn writing_is_iterative_so_a_deep_value_cannot_overflow_the_stack() {
    let mut v = Value::Null;
    for _ in 0..200_000 {
        v = Value::Array(vec![v]);
    }
    let text = to_string(&v);
    assert!(text.starts_with("[[[["));
    assert_eq!(text.len(), 400_004);
    v.dispose();
}

#[test]
fn builds_a_value_without_parsing() {
    let mut obj = Object::new();
    obj.insert("kind", Value::from("@particle-academy/branch"));
    obj.insert("x", float_value(1.5));
    obj.insert(
        "tags",
        Value::Array(vec![Value::from("a"), Value::from("b")]),
    );
    let v = Value::Object(obj);
    assert_eq!(
        to_string(&v),
        r#"{"kind":"@particle-academy/branch","x":1.5,"tags":["a","b"]}"#
    );
}
