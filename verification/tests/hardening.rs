//! What the parser refuses.

use fancy_json::{
    parse_step, Error, ErrorKind, FloatText, Number, ParseOptions, ParseStep, Value,
    DEFAULT_MAX_DEPTH,
};

/// The shortest round-trip rendering of a finite float.
fn float_text(x: f64) -> Option<FloatText> {
    if x.is_finite() {
        FloatText::new(&format!("{}", x))
    } else {
        None
    }
}

/// Reads a document with `options`, supplying the float table the reader
/// asks for.
fn parse_with(input: &str, options: ParseOptions) -> Result<Value, Error> {
    let mut table: Vec<Option<FloatText>> = Vec::new();
    loop {
        match parse_step(input, options, &table) {
            ParseStep::Done(result) => return result,
            ParseStep::NeedFloats(literals) => {
                for literal in literals {
                    let value: f64 = literal.parse().expect("a literal the grammar accepted");
                    table.push(float_text(value));
                }
            }
        }
    }
}

/// Reads a document with the default options.
fn parse(input: &str) -> Result<Value, Error> {
    parse_with(input, ParseOptions::new())
}

/// The value as `f64`, when it is a number.
fn as_f64(v: &Value) -> Option<f64> {
    match v {
        Value::Number(Number::PosInt(n)) => Some(*n as f64),
        Value::Number(Number::NegInt(n)) => Some(*n as f64),
        Value::Number(Number::Float(t)) => Some(t.as_str().parse().unwrap()),
        _ => None,
    }
}

fn err(input: &str) -> ErrorKind {
    parse(input).expect_err(&alloc_msg(input)).kind
}

fn alloc_msg(input: &str) -> String {
    format!("expected {input:?} to be refused, but it parsed")
}

#[test]
fn refuses_trailing_data_after_the_value() {
    assert_eq!(err("{} {}"), ErrorKind::TrailingData);
    assert_eq!(err("1 2"), ErrorKind::TrailingData);
    assert_eq!(err("nullnull"), ErrorKind::TrailingData);
}

#[test]
fn refuses_an_empty_or_whitespace_only_document() {
    assert_eq!(err(""), ErrorKind::UnexpectedEof);
    assert_eq!(err("   \n"), ErrorKind::UnexpectedEof);
}

#[test]
fn refuses_trailing_commas() {
    assert_eq!(err("[1,]"), ErrorKind::UnexpectedChar);
    assert_eq!(err(r#"{"a":1,}"#), ErrorKind::UnexpectedChar);
}

#[test]
fn refuses_comments() {
    assert_eq!(err("// x\n1"), ErrorKind::UnexpectedChar);
    assert_eq!(err("/* x */ 1"), ErrorKind::UnexpectedChar);
    assert_eq!(err("[1 /* x */]"), ErrorKind::UnexpectedChar);
}

#[test]
fn refuses_javascript_spellings_that_are_not_json() {
    assert_eq!(err("'a'"), ErrorKind::UnexpectedChar);
    assert_eq!(err("{a:1}"), ErrorKind::UnexpectedChar);
    assert_eq!(err("NaN"), ErrorKind::UnexpectedChar);
    assert_eq!(err("Infinity"), ErrorKind::UnexpectedChar);
    assert_eq!(err("-Infinity"), ErrorKind::InvalidNumber);
    assert_eq!(err("undefined"), ErrorKind::UnexpectedChar);
    assert_eq!(err("True"), ErrorKind::UnexpectedChar);
}

#[test]
fn refuses_numbers_json_does_not_allow() {
    assert_eq!(err("01"), ErrorKind::TrailingData);
    assert_eq!(err("+1"), ErrorKind::UnexpectedChar);
    assert_eq!(err(".5"), ErrorKind::UnexpectedChar);
    assert_eq!(err("5."), ErrorKind::InvalidNumber);
    assert_eq!(err("1e"), ErrorKind::InvalidNumber);
    assert_eq!(err("1e+"), ErrorKind::InvalidNumber);
    assert_eq!(err("-"), ErrorKind::InvalidNumber);
    assert_eq!(err("1.2.3"), ErrorKind::TrailingData);
    assert_eq!(err("0x10"), ErrorKind::TrailingData);
}

#[test]
fn refuses_an_integer_too_large_to_represent_exactly() {
    assert_eq!(err("18446744073709551616"), ErrorKind::NumberOutOfRange);
    assert_eq!(err("-9223372036854775809"), ErrorKind::NumberOutOfRange);

    let lossy = ParseOptions::new().with_lossy_big_integers(true);
    let v = parse_with("18446744073709551616", lossy).unwrap();
    assert_eq!(v.as_u64(), None, "a lossy read must not masquerade as exact");
    assert_eq!(as_f64(&v), Some(18_446_744_073_709_551_616.0));
}

#[test]
fn refuses_a_float_literal_that_is_not_finite() {
    assert_eq!(err("1e400"), ErrorKind::NumberOutOfRange);
    assert_eq!(err("-1e400"), ErrorKind::NumberOutOfRange);
    assert_eq!(as_f64(&parse("1e-400").unwrap()), Some(0.0));
}

#[test]
fn refuses_an_unescaped_control_character() {
    assert_eq!(err("\"a\nb\""), ErrorKind::ControlCharacterInString);
    assert_eq!(err("\"a\tb\""), ErrorKind::ControlCharacterInString);
    assert_eq!(err("\"a\u{0}b\""), ErrorKind::ControlCharacterInString);
    assert_eq!(parse("\"a\u{7f}b\"").unwrap().as_str(), Some("a\u{7f}b"));
}

#[test]
fn refuses_an_unknown_escape() {
    assert_eq!(err(r#""\x41""#), ErrorKind::InvalidEscape);
    assert_eq!(err(r#""\'""#), ErrorKind::InvalidEscape);
    assert_eq!(err(r#""\U0041""#), ErrorKind::InvalidEscape);
}

#[test]
fn refuses_a_malformed_unicode_escape() {
    assert_eq!(err(r#""\u00""#), ErrorKind::InvalidEscape);
    assert_eq!(err(r#""\uZZZZ""#), ErrorKind::InvalidEscape);
}

#[test]
fn refuses_a_lone_surrogate() {
    assert_eq!(err(r#""\uD83D""#), ErrorKind::LoneSurrogate);
    assert_eq!(err(r#""\uD83Dx""#), ErrorKind::LoneSurrogate);
    assert_eq!(err(r#""\uDE00""#), ErrorKind::LoneSurrogate);
    assert_eq!(err(r#""\uD83DA""#), ErrorKind::LoneSurrogate);
}

#[test]
fn refuses_an_unterminated_string() {
    assert_eq!(err("\"abc"), ErrorKind::UnexpectedEof);
    assert_eq!(err("\"abc\\"), ErrorKind::UnexpectedEof);
}

#[test]
fn refuses_unterminated_containers() {
    assert_eq!(err("[1,2"), ErrorKind::UnexpectedEof);
    assert_eq!(err(r#"{"a":1"#), ErrorKind::UnexpectedEof);
    assert_eq!(err("["), ErrorKind::UnexpectedEof);
    assert_eq!(err("{"), ErrorKind::UnexpectedEof);
}

#[test]
fn refuses_a_non_string_object_key() {
    assert_eq!(err("{1:2}"), ErrorKind::UnexpectedChar);
}

#[test]
fn refuses_nesting_deeper_than_the_cap_instead_of_overflowing_the_stack() {
    let deep = "[".repeat(50_000) + &"]".repeat(50_000);
    assert_eq!(err(&deep), ErrorKind::DepthLimitExceeded);

    let deep_obj = r#"{"a":"#.repeat(50_000) + "1" + &"}".repeat(50_000);
    assert_eq!(err(&deep_obj), ErrorKind::DepthLimitExceeded);

    assert_eq!(ParseOptions::new().max_depth(), DEFAULT_MAX_DEPTH);
    let shallow = ParseOptions::new().with_max_depth(3);
    assert!(parse_with("[[[1]]]", shallow).is_ok());
    assert_eq!(
        parse_with("[[[[1]]]]", shallow).unwrap_err().kind,
        ErrorKind::DepthLimitExceeded
    );
}

#[test]
fn an_error_reports_where_it_happened() {
    let e = parse("{\n  \"a\": 1,\n  \"b\": x\n}").unwrap_err();
    assert_eq!(e.line, 3, "line is 1-based");
    assert_eq!(e.column, 8, "column is 1-based and counts characters");
    assert!(
        e.message().contains("line 3"),
        "the message must locate the fault: {}",
        e.message()
    );
}

#[test]
fn error_positions_count_characters_not_bytes() {
    let e = parse("[\"日本語\", x]").unwrap_err();
    assert_eq!(e.line, 1);
    assert_eq!(e.column, 9);
}
