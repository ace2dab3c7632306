//! The library's own scenarios: the laws on concrete values, every error
//! kind, the value and object API, and the float-table protocol.

use fancy_json::{
    parse_step, to_string, to_string_canonical, to_string_pretty, Error, ErrorKind, FloatText,
    Number, Object, ParseOptions, ParseStep, Value,
};

/// The shortest round-trip rendering of a finite float.
fn float_text(x: f64) -> Option<FloatText> {
    if x.is_finite() {
        FloatText::new(&format!("{}", x))
    } else {
        None
    }
}

/// Reads a document with `options`, supplying the float table the reader
/// asks for.
fn parse_with(input: &str, options: ParseOptions) -> Result<Value, Error> {
    let mut table: Vec<Option<FloatText>> = Vec::new();
    loop {
        match parse_step(input, options, &table) {
            ParseStep::Done(result) => return result,
            ParseStep::NeedFloats(literals) => {
                for literal in literals {
                    let value: f64 = literal.parse().expect("a literal the grammar accepted");
                    table.push(float_text(value));
                }
            }
        }
    }
}

/// Reads a document with the default options.
fn parse(input: &str) -> Result<Value, Error> {
    parse_with(input, ParseOptions::new())
}

/// A float as a value.
fn float_value(text: &str) -> Value {
    Value::Number(Number::Float(FloatText::new(text).unwrap()))
}

/// A value built in code: nested containers, escapes, every kind of number.
fn sample() -> Value {
    let mut inner = Object::new();
    inner.insert("z", Value::from(-3));
    inner.insert("a", float_value("0.25"));
    let mut outer = Object::new();
    outer.insert("text", Value::from("tab\there \"quoted\" \u{1} é"));
    outer.insert("list", Value::Array(vec![Value::Null, Value::Bool(false), Value::from(7u8)]));
    outer.insert("inner", Value::Object(inner));
    outer.insert("big", Value::from(u64::MAX));
    outer.insert("", Value::Array(vec![]));
    Value::Object(outer)
}

// -- the laws, on concrete values -----------------------------------------

#[test]
fn written_text_reads_back_as_the_value() {
    let v = sample();
    assert_eq!(parse(&to_string(&v)).unwrap(), v);
    assert_eq!(parse(&to_string_pretty(&v, 3)).unwrap(), v);
    assert_eq!(parse(&to_string_pretty(&v, 0)).unwrap(), v);
    assert_eq!(parse(&to_string_canonical(&v)).unwrap(), v);
}

#[test]
fn the_plain_writers_keep_insertion_order() {
    let v = sample();
    let back = parse(&to_string(&v)).unwrap();
    let keys = back.as_object().unwrap().keys();
    assert_eq!(keys, ["text", "list", "inner", "big", ""]);
    let back = parse(&to_string_pretty(&v, 2)).unwrap();
    assert_eq!(back.as_object().unwrap().keys(), ["text", "list", "inner", "big", ""]);
}

#[test]
fn the_canonical_text_reads_back_in_sorted_order() {
    let v = sample();
    let back = parse(&to_string_canonical(&v)).unwrap();
    assert_eq!(back.as_object().unwrap().keys(), ["", "big", "inner", "list", "text"]);
    assert_eq!(back.get("inner").unwrap().as_object().unwrap().keys(), ["a", "z"]);
}

#[test]
fn the_canonical_text_is_a_fixed_point_of_both_writers() {
    let once = to_string_canonical(&sample());
    let back = parse(&once).unwrap();
    assert_eq!(to_string_canonical(&back), once);
    assert_eq!(to_string(&back), once);
}

#[test]
fn canonical_text_ignores_member_order() {
    let mut a = Object::new();
    a.insert("x", Value::from(1));
    a.insert("y", Value::Array(vec![Value::from("b"), Value::from("a")]));
    let mut b = Object::new();
    b.insert("y", Value::Array(vec![Value::from("b"), Value::from("a")]));
    b.insert("x", Value::from(1));
    let (a, b) = (Value::Object(a), Value::Object(b));
    assert_eq!(a, b);
    assert_ne!(to_string(&a), to_string(&b));
    assert_eq!(to_string_canonical(&a), to_string_canonical(&b));
    assert_eq!(to_string_canonical(&a), r#"{"x":1,"y":["b","a"]}"#);
}

#[test]
fn the_zero_floats_are_equal_but_written_apart() {
    let plus = float_value("0");
    let minus = float_value("-0");
    assert_eq!(plus, minus);
    assert_eq!(to_string_canonical(&plus), "0.0");
    assert_eq!(to_string_canonical(&minus), "-0.0");
}

// -- exact texts ----------------------------------------------------------

#[test]
fn pretty_text_is_exact() {
    let v = sample();
    assert_eq!(
        to_string_pretty(&v, 2),
        "{\n  \"text\": \"tab\\there \\\"quoted\\\" \\u0001 é\",\n  \"list\": [\n    null,\n    false,\n    7\n  ],\n  \"inner\": {\n    \"z\": -3,\n    \"a\": 0.25\n  },\n  \"big\": 18446744073709551615,\n  \"\": []\n}"
    );
    assert_eq!(to_string_pretty(&Value::Array(vec![Value::Null]), 0), "[\nnull\n]");
}

#[test]
fn integers_are_written_in_decimal() {
    assert_eq!(to_string(&Value::from(i64::MIN)), "-9223372036854775808");
    assert_eq!(to_string(&Value::from(0u64)), "0");
    assert_eq!(to_string(&Value::from(-1i8)), "-1");
    assert_eq!(to_string(&Value::from(65535u16)), "65535");
    assert_eq!(to_string(&Value::from(4294967295u32)), "4294967295");
    assert_eq!(to_string(&Value::from(-32768i16)), "-32768");
}

#[test]
fn a_float_without_a_point_gains_one() {
    assert_eq!(to_string(&float_value("12")), "12.0");
    assert_eq!(to_string(&float_value("-0.5")), "-0.5");
}

#[test]
fn every_control_character_is_escaped() {
    let text: String = (0u8..0x20).map(char::from).collect();
    let written = to_string(&Value::from(text.as_str()));
    assert_eq!(
        written,
        "\"\\u0000\\u0001\\u0002\\u0003\\u0004\\u0005\\u0006\\u0007\\b\\t\\n\\u000b\\f\\r\\u000e\\u000f\\u0010\\u0011\\u0012\\u0013\\u0014\\u0015\\u0016\\u0017\\u0018\\u0019\\u001a\\u001b\\u001c\\u001d\\u001e\\u001f\""
    );
    assert_eq!(parse(&written).unwrap().as_str(), Some(text.as_str()));
}

// -- every error kind, where and with what --------------------------------

fn refusal(input: &str) -> Error {
    parse(input).unwrap_err()
}

#[test]
fn each_error_kind_has_an_input_that_gives_it() {
    assert_eq!(refusal("[1, 2").kind, ErrorKind::UnexpectedEof);
    assert_eq!(refusal("[1; 2]").kind, ErrorKind::UnexpectedChar);
    assert_eq!(refusal("true false").kind, ErrorKind::TrailingData);
    assert_eq!(refusal("-x").kind, ErrorKind::InvalidNumber);
    assert_eq!(refusal("99999999999999999999").kind, ErrorKind::NumberOutOfRange);
    assert_eq!(refusal("\"\u{1f}\"").kind, ErrorKind::ControlCharacterInString);
    assert_eq!(refusal(r#""\a""#).kind, ErrorKind::InvalidEscape);
    assert_eq!(refusal(r#""\udc00""#).kind, ErrorKind::LoneSurrogate);
    let deep = "[".repeat(129) + &"]".repeat(129);
    assert_eq!(refusal(&deep).kind, ErrorKind::DepthLimitExceeded);
    let fits = "[".repeat(128) + &"]".repeat(128);
    assert!(parse(&fits).is_ok());
}

#[test]
fn an_error_locates_itself_in_lines_columns_and_bytes() {
    let e = refusal("\"é\"\n  x");
    assert_eq!(e.kind, ErrorKind::TrailingData);
    assert_eq!((e.line, e.column, e.offset), (2, 3, 7));
    assert_eq!(e.detail, None);
    assert_eq!(e.message(), "trailing data after the top-level value at line 2, column 3");
}

#[test]
fn refusals_that_carry_a_detail_say_why() {
    let e = refusal("[1e999]");
    assert_eq!((e.kind, e.line, e.column, e.offset), (ErrorKind::NumberOutOfRange, 1, 2, 1));
    assert_eq!(
        e.message(),
        "number out of range at line 1, column 2: the literal overflows to infinity, which JSON cannot represent"
    );
    let e = refusal("-18446744073709551617");
    assert_eq!(e.kind, ErrorKind::NumberOutOfRange);
    assert!(e.detail.unwrap().contains("with_lossy_big_integers"));
    let e = parse_with("[[1]]", ParseOptions::new().with_max_depth(1)).unwrap_err();
    assert_eq!((e.kind, e.column), (ErrorKind::DepthLimitExceeded, 2));
    assert!(e.detail.unwrap().contains("with_max_depth"));
}

#[test]
fn error_kinds_describe_themselves() {
    assert_eq!(ErrorKind::UnexpectedEof.as_str(), "unexpected end of input");
    assert_eq!(ErrorKind::LoneSurrogate.as_str(), "lone surrogate in \\u escape");
    assert_eq!(
        ErrorKind::DepthLimitExceeded.as_str(),
        "nesting is deeper than the configured limit"
    );
}

// -- the float table --------------------------------------------------------

#[test]
fn the_first_reading_names_the_float_literals_in_order() {
    let doc = r#"{"a":[1.50,2],"b":-3e2,"c":0.0}"#;
    match parse_step(doc, ParseOptions::new(), &[]) {
        ParseStep::NeedFloats(literals) => assert_eq!(literals, ["1.50", "-3e2", "0.0"]),
        ParseStep::Done(_) => panic!("the document holds float literals"),
    }
    let table = vec![FloatText::new("1.5"), FloatText::new("-300"), FloatText::new("0")];
    match parse_step(doc, ParseOptions::new(), &table) {
        ParseStep::Done(Ok(v)) => assert_eq!(to_string(&v), r#"{"a":[1.5,2],"b":-300.0,"c":0.0}"#),
        _ => panic!("the table covers every literal"),
    }
}

#[test]
fn a_missing_entry_is_an_infinite_float() {
    let table = vec![None];
    match parse_step("[1e5]", ParseOptions::new(), &table) {
        ParseStep::Done(Err(e)) => assert_eq!(e.kind, ErrorKind::NumberOutOfRange),
        _ => panic!("an infinite float is refused"),
    }
}

#[test]
fn a_lossy_big_integer_is_a_float_literal() {
    let lossy = ParseOptions::new().with_lossy_big_integers(true);
    assert!(lossy.lossy_big_integers());
    match parse_step("18446744073709551616", lossy, &[]) {
        ParseStep::NeedFloats(literals) => assert_eq!(literals, ["18446744073709551616"]),
        ParseStep::Done(_) => panic!("the literal needs a float"),
    }
    assert!(!ParseOptions::default().lossy_big_integers());
    assert_eq!(ParseOptions::default().max_depth(), 128);
}

#[test]
fn a_float_text_has_exactly_one_shape() {
    for good in ["0", "-0", "7", "-12", "0.5", "10.25", "-0.001"] {
        assert_eq!(FloatText::new(good).unwrap().as_str(), good);
    }
    for bad in ["", "-", "01", "1.", "1.50", ".5", "1e3", "+1", "1.0", "--1", " 1"] {
        assert!(FloatText::new(bad).is_none(), "{bad} is not a rendering");
    }
}

// -- the value API ----------------------------------------------------------

#[test]
fn values_answer_by_kind() {
    let v = parse(r#"[null,true,"s",-5,5,9223372036854775808,1.5,{"k":[]}]"#).unwrap();
    let items = v.as_array().unwrap();
    assert!(items[0].is_null());
    assert!(!items[1].is_null());
    assert_eq!(items[1].as_bool(), Some(true));
    assert_eq!(items[2].as_bool(), None);
    assert_eq!(items[2].as_str(), Some("s"));
    assert_eq!(items[3].as_i64(), Some(-5));
    assert_eq!(items[3].as_u64(), None);
    assert_eq!(items[4].as_i64(), Some(5));
    assert_eq!(items[5].as_u64(), Some(9_223_372_036_854_775_808));
    assert_eq!(items[5].as_i64(), None);
    assert_eq!(items[6].as_u64(), None);
    assert!(items[6].as_number().unwrap().is_integer() == false);
    assert!(items[4].as_number().unwrap().is_integer());
    assert_eq!(items[7].get("k"), Some(&Value::Array(vec![])));
    assert_eq!(items[7].get("missing"), None);
    assert_eq!(v.at(2), Some(&Value::from("s")));
    assert_eq!(v.at(8), None);
    assert_eq!(items[0].at(0), None);
    assert_eq!(items[2].get("k"), None);
}

#[test]
fn values_are_taken_apart_by_value() {
    let mut v = parse(r#"{"a":"x","b":[1]}"#).unwrap();
    let taken = v.take();
    assert!(v.is_null());
    let mut obj = taken.into_object().unwrap();
    let b = obj.remove("b").unwrap();
    assert_eq!(b.clone().into_array().unwrap(), vec![Value::from(1)]);
    assert_eq!(b.into_string(), None);
    let a = obj.remove("a").unwrap();
    assert_eq!(a.into_string(), Some(String::from("x")));
    assert!(obj.is_empty());
    assert_eq!(Value::Null.into_object(), None);
    assert_eq!(Value::default(), Value::Null);
}

#[test]
fn values_are_changed_in_place() {
    let mut v = parse(r#"{"a":[1],"b":{}}"#).unwrap();
    v.as_object_mut().unwrap().get_mut("a").unwrap().as_array_mut().unwrap().push(Value::from(2));
    v.as_object_mut().unwrap().get_mut("b").unwrap().as_object_mut().unwrap().insert("c", Value::Null);
    assert_eq!(to_string(&v), r#"{"a":[1,2],"b":{"c":null}}"#);
    assert!(Value::from(true).as_array_mut().is_none());
    assert!(Value::from(true).as_object_mut().is_none());
}

#[test]
fn signed_integers_that_are_not_negative_are_positive() {
    assert!(matches!(Value::from(0i32), Value::Number(Number::PosInt(0))));
    assert!(matches!(Value::from(5i64), Value::Number(Number::PosInt(5))));
    assert!(matches!(Value::from(-5i64), Value::Number(Number::NegInt(-5))));
    assert_eq!(Value::from(0i32), parse("0").unwrap());
    assert_eq!(Value::from(-0i8), parse("-0").unwrap());
}

#[test]
fn numbers_compare_by_value_and_kind() {
    assert_eq!(Number::PosInt(3), Number::PosInt(3));
    assert_ne!(Number::PosInt(3), Number::NegInt(3));
    assert_ne!(Number::PosInt(3), Number::Float(FloatText::new("3").unwrap()));
    assert_eq!(Number::PosInt(3).as_i64(), Some(3));
    assert_eq!(Number::PosInt(u64::MAX).as_i64(), None);
    assert_eq!(Number::NegInt(-3).as_u64(), None);
    assert_eq!(Number::Float(FloatText::new("1.5").unwrap()).as_i64(), None);
}

#[test]
fn a_deep_value_is_disposed_of_without_recursion() {
    let mut v = Value::Null;
    for i in 0..100_000 {
        let mut o = Object::new();
        o.insert("k", v);
        o.insert("i", Value::from(i as u32));
        v = Value::Array(vec![Value::Object(o)]);
    }
    v.dispose();
}

// -- the object API ---------------------------------------------------------

#[test]
fn an_object_keeps_insertion_order_and_the_last_value() {
    let mut o = Object::with_capacity(4);
    assert!(o.is_empty());
    assert_eq!(o.insert("b", Value::from(1)), None);
    assert_eq!(o.insert("a", Value::from(2)), None);
    assert_eq!(o.insert("b", Value::from(3)), Some(Value::from(1)));
    assert_eq!(o.len(), 2);
    assert_eq!(o.keys(), ["b", "a"]);
    assert_eq!(o.values(), [&Value::from(3), &Value::from(2)]);
    assert_eq!(o.iter(), [("b", &Value::from(3)), ("a", &Value::from(2))]);
    assert_eq!(o.sorted_entries(), [("a", &Value::from(2)), ("b", &Value::from(3))]);
    assert!(o.contains_key("a"));
    assert!(!o.contains_key("c"));
    assert_eq!(o.get("c"), None);
}

#[test]
fn removing_a_key_closes_the_gap() {
    let mut o = Object::new();
    for (i, k) in ["p", "q", "r", "s"].iter().enumerate() {
        o.insert(k, Value::from(i as u8));
    }
    assert_eq!(o.remove("q"), Some(Value::from(1u8)));
    assert_eq!(o.remove("q"), None);
    assert_eq!(o.keys(), ["p", "r", "s"]);
    assert_eq!(o.get("s"), Some(&Value::from(3u8)));
    o.insert("q", Value::Null);
    assert_eq!(o.keys(), ["p", "r", "s", "q"]);
}

#[test]
fn objects_compare_regardless_of_order_and_copy_deeply() {
    let a = parse(r#"{"a":1,"b":{"c":[true]}}"#).unwrap();
    let b = parse(r#"{"b":{"c":[true]},"a":1}"#).unwrap();
    let c = parse(r#"{"b":{"c":[false]},"a":1}"#).unwrap();
    let d = parse(r#"{"a":1}"#).unwrap();
    assert_eq!(a, b);
    assert_ne!(a, c);
    assert_ne!(a, d);
    assert_ne!(d, a);
    let copy = a.clone();
    assert_eq!(to_string(&copy), to_string(&a));
    let oa = a.as_object().unwrap();
    assert_eq!(oa.clone(), *b.as_object().unwrap());
}

#[test]
fn lookups_compare_whole_keys() {
    let v = parse(r#"{"ab":1,"a":2,"":3}"#).unwrap();
    assert_eq!(v.get("a"), Some(&Value::from(2)));
    assert_eq!(v.get("ab"), Some(&Value::from(1)));
    assert_eq!(v.get(""), Some(&Value::from(3)));
    assert_eq!(v.get("b"), None);
}

#[test]
fn unicode_escapes_decode_to_their_characters() {
    assert_eq!(parse(r#""\u0041\u00e9\u2014""#).unwrap().as_str(), Some("Aé—"));
    assert_eq!(parse(r#""\uD83D\uDE00x""#).unwrap().as_str(), Some("😀x"));
    assert_eq!(parse(r#""\u0000""#).unwrap().as_str(), Some("\u{0}"));
}

#[test]
fn an_object_is_built_from_pairs_in_order() {
    let o = Object::from_entries(vec![
        (String::from("b"), Value::from(1)),
        (String::from("a"), Value::from(2)),
        (String::from("b"), Value::from(3)),
    ]);
    assert_eq!(o.keys(), ["b", "a"]);
    assert_eq!(o.get("b"), Some(&Value::from(3)));
    assert_eq!(o.len(), 2);
}

#[test]
fn a_second_step_with_an_entry_per_literal_is_done() {
    let doc = "[1e999, 2.5, {\"k\": 3e0}]";
    let named = match parse_step(doc, ParseOptions::new(), &[]) {
        ParseStep::NeedFloats(named) => named,
        ParseStep::Done(_) => panic!("the document holds float literals"),
    };
    assert_eq!(named, ["1e999", "2.5", "3e0"]);
    let finite = vec![FloatText::new("1"), FloatText::new("2.5"), FloatText::new("3")];
    assert!(matches!(parse_step(doc, ParseOptions::new(), &finite), ParseStep::Done(Ok(_))));
    let infinite = vec![None, FloatText::new("2.5"), FloatText::new("3")];
    match parse_step(doc, ParseOptions::new(), &infinite) {
        ParseStep::Done(Err(e)) => assert_eq!((e.kind, e.column), (ErrorKind::NumberOutOfRange, 2)),
        _ => panic!("the first literal is infinite"),
    }
}

#[test]
fn a_non_negative_negint_anywhere_is_not_well_formed() {
    assert!(parse(r#"{"a":[1,-2,{"b":3.5}],"c":null}"#).unwrap().is_well_formed());
    assert!(!Value::Number(Number::NegInt(0)).is_well_formed());
    let mut inner = Object::new();
    inner.insert("k", Value::Number(Number::NegInt(7)));
    let nested = Value::Array(vec![Value::from(1u8), Value::Object(inner)]);
    assert!(!nested.is_well_formed());
    assert!(Value::Array(vec![Value::Number(Number::NegInt(-7))]).is_well_formed());
}

#[test]
fn the_depth_cap_refuses_only_for_depth() {
    let doc = r#"{"a":[1,[2]],"b":9007199254740993}"#;
    let v = parse(doc).unwrap();
    for d in 3..6 {
        assert_eq!(parse_with(doc, ParseOptions::new().with_max_depth(d)).unwrap(), v);
    }
    for d in 0..3 {
        let e = parse_with(doc, ParseOptions::new().with_max_depth(d)).unwrap_err();
        assert_eq!(e.kind, ErrorKind::DepthLimitExceeded);
    }
    // A container read on the way counts, though a repeated key later
    // replaces it.
    let e = parse_with(r#"{"a":[[1]],"a":1}"#, ParseOptions::new().with_max_depth(1)).unwrap_err();
    assert_eq!(e.kind, ErrorKind::DepthLimitExceeded);
}

#[test]
fn lossy_reading_keeps_an_accepted_document() {
    let doc = r#"[1,-2,3.5,{"k":18446744073709551615,"n":-9223372036854775808}]"#;
    let lossy = ParseOptions::new().with_lossy_big_integers(true);
    assert_eq!(parse_with(doc, lossy).unwrap(), parse(doc).unwrap());
}

/// Removes every space and line feed outside string literals.
fn without_layout(text: &str) -> String {
    let mut out = String::new();
    let mut inside = false;
    let mut escaped = false;
    for c in text.chars() {
        if inside {
            out.push(c);
            if escaped {
                escaped = false;
            } else if c == '\\' {
                escaped = true;
            } else if c == '"' {
                inside = false;
            }
        } else if c != ' ' && c != '\n' {
            out.push(c);
            if c == '"' {
                inside = true;
            }
        }
    }
    out
}

#[test]
fn pretty_output_is_compact_output_with_whitespace() {
    let doc = r#"{"a b":[1,-2,{"c\"d":" x\n y "}],"e":[],"f":{},"g":"\\ \" "}"#;
    let v = parse(doc).unwrap();
    for indent in [0, 1, 2, 4] {
        assert_eq!(without_layout(&to_string_pretty(&v, indent)), to_string(&v));
    }
}

#[test]
fn different_values_have_different_canonical_text() {
    let pairs = [
        ("[1,2]", "[2,1]"),
        (r#"{"a":1}"#, r#"{"a":1.0}"#),
        (r#"{"a":1}"#, r#"{"b":1}"#),
        (r#"{"a":[1]}"#, r#"{"a":[[1]]}"#),
        (r#""é""#, "\"e\u{301}\""),
    ];
    for (x, y) in pairs {
        let (vx, vy) = (parse(x).unwrap(), parse(y).unwrap());
        assert_ne!(to_string_canonical(&vx), to_string_canonical(&vy));
    }
    let (a, b) = (parse(r#"{"b":2,"a":[1,{"y":1,"x":0}]}"#).unwrap(), parse(r#"{"a":[1,{"x":0,"y":1}],"b":2}"#).unwrap());
    assert_eq!(to_string_canonical(&a), to_string_canonical(&b));
}

#[test]
fn pretty_output_of_a_non_negative_negint_is_compact_with_whitespace() {
    let v = Value::Array(vec![Value::Number(Number::NegInt(0)), Value::Number(Number::NegInt(7))]);
    assert_eq!(to_string(&v), "[0,7]");
    assert_eq!(without_layout(&to_string_pretty(&v, 2)), to_string(&v));
}
