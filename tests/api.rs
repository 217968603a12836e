use jsnom::JsonValue::{Array, Bool, Null, Object};
use jsnom::{
    parse, parse_array, parse_bool, parse_complete, parse_null, parse_number, parse_object,
    parse_string, parse_with_depth, ErrorKind, JsonNumber, JsonValue, DEFAULT_MAX_DEPTH,
};

fn text(t: &str) -> JsonValue {
    JsonValue::String(t.to_string())
}

fn num(m: &str, e: Option<&str>) -> JsonValue {
    JsonValue::Number(JsonNumber { mantissa: m.to_string(), exponent: e.map(|x| x.to_string()) })
}

fn value_of(v: &JsonValue) -> f32 {
    match v {
        JsonValue::Number(n) => {
            let m: f32 = n.mantissa.parse().unwrap();
            match &n.exponent {
                Some(e) => m * 10f32.powf(e.parse::<f32>().unwrap()),
                None => m,
            }
        }
        _ => panic!("not a number: {:?}", v),
    }
}

/// The innermost frame of a failed parse.
fn cause(r: Result<JsonValue, jsnom::Error>) -> (usize, ErrorKind) {
    let e = r.unwrap_err();
    *e.errors.last().unwrap()
}

#[test]
fn keywords_parse() {
    assert_eq!(parse("null"), Ok(JsonValue::Null));
    assert_eq!(parse("true"), Ok(JsonValue::Bool(true)));
    assert_eq!(parse("false"), Ok(JsonValue::Bool(false)));
    assert_eq!(JsonValue::from_str("true"), Ok(JsonValue::Bool(true)));
    assert_eq!(parse_null("null"), Ok(JsonValue::Null));
    assert_eq!(parse_bool("true"), Ok(JsonValue::Bool(true)));
}

#[test]
fn trailing_text_is_ignored() {
    assert_eq!(parse("null xyz"), Ok(JsonValue::Null));
    assert_eq!(parse("true]"), Ok(JsonValue::Bool(true)));
}

#[test]
fn keywords_are_exact() {
    assert_eq!(cause(parse_null("nul")), (0, ErrorKind::Keyword));
    assert_eq!(cause(parse_bool("True")), (0, ErrorKind::Keyword));
    assert_eq!(cause(parse("  nil")), (2, ErrorKind::Keyword));
}

#[test]
fn leading_zero_then_digits() {
    let v = parse_number("0234").unwrap();
    assert_eq!(v, num("0234", None));
    assert_eq!(value_of(&v), 234.0);
}

#[test]
fn double_leading_zero_fails() {
    assert_eq!(cause(parse_number("00234")), (1, ErrorKind::LeadingZero));
    assert_eq!(cause(parse_number("-00")), (2, ErrorKind::LeadingZero));
}

#[test]
fn negative_fraction() {
    let v = parse_number("-234.0123").unwrap();
    assert_eq!(v, num("-234.0123", None));
    assert_eq!(value_of(&v), -234.0123);
}

#[test]
fn exponent_scales() {
    let v = parse_number("3e-2").unwrap();
    assert_eq!(v, num("3", Some("-2")));
    assert_eq!(value_of(&v), 0.03);
    assert_eq!(value_of(&parse_number("-3e-2").unwrap()), -0.03);
    assert_eq!(parse_number("1.5E+3").unwrap(), num("1.5", Some("+3")));
}

#[test]
fn exponent_needs_sign_and_digit() {
    assert_eq!(
        parse_number("1e2").unwrap_err().errors,
        vec![(0, ErrorKind::Number), (2, ErrorKind::Sign)]
    );
    assert_eq!(cause(parse_number("1E+")), (3, ErrorKind::Digit));
    assert_eq!(cause(parse_number("-2.5e-x")), (6, ErrorKind::Digit));
    assert_eq!(cause(parse("[1e2]")), (3, ErrorKind::Sign));
}

#[test]
fn number_needs_a_digit() {
    assert_eq!(cause(parse_number("-")), (1, ErrorKind::Digit));
    assert_eq!(cause(parse_number("x")), (0, ErrorKind::Digit));
}

#[test]
fn numbers_keep_multi_digit_integers() {
    assert_eq!(parse_number("100"), Ok(num("100", None)));
    assert_eq!(parse_number("0"), Ok(num("0", None)));
    assert_eq!(parse_number("7."), Ok(num("7.", None)));
}

#[test]
fn string_with_newline_escape() {
    assert_eq!(parse_string("\"Hello, world!\\n\""), Ok(text("Hello, world!\n")));
}

#[test]
fn string_with_unicode_escape() {
    let v = parse_string("\"\\u0d9e\"").unwrap();
    assert_eq!(v, text("\u{0d9e}"));
    match v {
        JsonValue::String(t) => assert_eq!(t.chars().count(), 1),
        _ => panic!("not a string"),
    }
}

#[test]
fn string_simple_escapes() {
    assert_eq!(
        parse_string("\"\\\"\\\\\\b\\f\\n\\r\\t\""),
        Ok(text("\"\\\u{8}\u{c}\n\r\t"))
    );
    assert_eq!(parse_string("\"\\u00E9x\""), Ok(text("\u{e9}x")));
}

#[test]
fn string_errors() {
    assert_eq!(cause(parse_string("\"abc")), (4, ErrorKind::Char('"')));
    assert_eq!(cause(parse_string("\"a\\qb\"")), (3, ErrorKind::Escape));
    assert_eq!(cause(parse_string("\"\\u12g4\"")), (5, ErrorKind::HexDigit));
    assert_eq!(cause(parse_string("\"\\ud800\"")), (1, ErrorKind::Scalar));
    assert_eq!(cause(parse_string("abc")), (0, ErrorKind::Char('"')));
}

#[test]
fn string_error_trail() {
    let e = parse_string(" \"ab\\x\"").unwrap_err();
    assert_eq!(e.errors, vec![(1, ErrorKind::String), (5, ErrorKind::Escape)]);
    assert_eq!(e.data, " \"ab\\x\"");
}

fn three_keywords() -> JsonValue {
    Array(vec![Null, Null, Bool(true)])
}

#[test]
fn array_of_keywords() {
    assert_eq!(parse_array("[null, null, true]"), Ok(three_keywords()));
    assert_eq!(parse_array("[null,null,true]"), Ok(three_keywords()));
    assert_eq!(parse_array(" [ null ,\n\tnull\r, true ] "), Ok(three_keywords()));
    assert_eq!(JsonValue::from_str("[null, null, true]"), Ok(three_keywords()));
}

#[test]
fn array_trailing_comma() {
    let v = parse_array("[1,2,]").unwrap();
    assert_eq!(v, JsonValue::Array(vec![num("1", None), num("2", None)]));
    match &v {
        JsonValue::Array(items) => {
            assert_eq!(value_of(&items[0]), 1.0);
            assert_eq!(value_of(&items[1]), 2.0);
        }
        _ => panic!("not an array"),
    }
    assert_eq!(parse_array("[]"), Ok(JsonValue::Array(vec![])));
    assert_eq!(parse_array("[,]"), Ok(JsonValue::Array(vec![])));
}

#[test]
fn array_errors() {
    assert_eq!(cause(parse_array("[1,,]")), (3, ErrorKind::Value));
    assert_eq!(cause(parse_array("[1 2]")), (3, ErrorKind::Char(']')));
    assert_eq!(cause(parse_array("[1,2")), (4, ErrorKind::Char(']')));
    assert_eq!(cause(parse_array("{}")), (0, ErrorKind::Char('[')));
    let e = parse_array("[[tru]]").unwrap_err();
    assert_eq!(
        e.errors,
        vec![
            (0, ErrorKind::Array),
            (1, ErrorKind::Array),
            (2, ErrorKind::Bool),
            (2, ErrorKind::Keyword)
        ]
    );
}

#[test]
fn object_keeps_duplicate_keys_in_order() {
    let v = parse_object("{\"a\":1,\"a\":2}").unwrap();
    assert_eq!(
        v,
        JsonValue::Object(vec![(text("a"), num("1", None)), (text("a"), num("2", None))])
    );
    assert_eq!(
        parse_object("{\"b\": true, \"a\": null,}"),
        Ok(JsonValue::Object(vec![(text("b"), JsonValue::Bool(true)), (text("a"), JsonValue::Null)]))
    );
}

#[test]
fn object_example() {
    assert_eq!(
        parse_object("{\"user\": \"Piturnah\", \"crates\": [\"gex\", \"newdoku\", \"jsnom\"]}"),
        Ok(Object(vec![
            (text("user"), text("Piturnah")),
            (text("crates"), Array(vec![text("gex"), text("newdoku"), text("jsnom")]))
        ]))
    );
    assert_eq!(
        parse_array("[null, null, [\"hello\", false]]"),
        Ok(Array(vec![Null, Null, Array(vec![text("hello"), Bool(false)])]))
    );
}

#[test]
fn object_errors() {
    assert_eq!(cause(parse_object("{\"a\" 1}")), (5, ErrorKind::Char(':')));
    assert_eq!(cause(parse_object("{a:1}")), (1, ErrorKind::Char('"')));
    assert_eq!(cause(parse_object("{\"a\":1 \"b\":2}")), (7, ErrorKind::Char('}')));
    assert_eq!(cause(parse_object("{,1}")), (2, ErrorKind::Char('}')));
}

#[test]
fn no_value_here() {
    assert_eq!(parse("").unwrap_err().errors, vec![(0, ErrorKind::Value)]);
    assert_eq!(parse("   ?").unwrap_err().errors, vec![(3, ErrorKind::Value)]);
}

#[test]
fn error_points_at_offending_character() {
    let s = "{\"k\": [1, 2, @]}";
    let e = parse(s).unwrap_err();
    let (at, kind) = *e.errors.last().unwrap();
    assert_eq!(kind, ErrorKind::Value);
    assert_eq!(s.chars().nth(at), Some('@'));
    let mut last = 0;
    for (p, _) in &e.errors {
        assert!(*p >= last);
        last = *p;
    }
}

#[test]
fn deep_nesting_is_refused() {
    let deep = "[".repeat(10000) + &"]".repeat(10000);
    let e = parse(&deep).unwrap_err();
    assert_eq!(*e.errors.last().unwrap(), (DEFAULT_MAX_DEPTH, ErrorKind::DepthLimit));
    assert_eq!(e.errors.len(), DEFAULT_MAX_DEPTH + 2);
}

#[test]
fn nesting_within_the_bound_parses() {
    let s = "[".repeat(3) + &"]".repeat(3);
    assert_eq!(
        parse_with_depth(&s, 3),
        Ok(JsonValue::Array(vec![JsonValue::Array(vec![JsonValue::Array(vec![])])]))
    );
    assert_eq!(cause(parse_with_depth(&s, 2)), (2, ErrorKind::DepthLimit));
    assert_eq!(cause(parse_with_depth("{}", 0)), (0, ErrorKind::DepthLimit));
    assert_eq!(parse_with_depth("7", 0), Ok(num("7", None)));
}

#[test]
fn complete_parse_asks_for_whole_input() {
    assert_eq!(parse_complete(" [true] ", DEFAULT_MAX_DEPTH), Ok(JsonValue::Array(vec![JsonValue::Bool(true)])));
    assert_eq!(
        parse_complete("[true] x", DEFAULT_MAX_DEPTH).unwrap_err().errors,
        vec![(7, ErrorKind::Trailing)]
    );
}

#[test]
fn leading_whitespace_changes_nothing() {
    assert_eq!(parse(" \t\r\n true"), parse("true"));
    assert_eq!(parse("  [1]"), parse("[1]"));
    assert_eq!(parse_with_depth("   ", 4).unwrap_err().errors, vec![(3, ErrorKind::Value)]);
}

#[test]
fn every_production_reached_by_dispatch() {
    assert_eq!(parse("\"x\""), parse_string("\"x\""));
    assert_eq!(parse("-1.5"), parse_number("-1.5"));
    assert_eq!(parse("{\"k\":[]}"), parse_object("{\"k\":[]}"));
    assert_eq!(parse("[false]"), parse_array("[false]"));
}

#[test]
fn errors_clone_and_keep_text() {
    let e = parse("[1, ?]").unwrap_err();
    assert_eq!(e.clone(), e);
    assert_eq!(e.data, "[1, ?]");
    assert_eq!(*e.errors.last().unwrap(), (4, ErrorKind::Value));
}

#[test]
fn number_tokens_keep_their_text() {
    assert_eq!(parse_number(" -0.50e+10 "), Ok(num("-0.50", Some("+10"))));
    assert_eq!(parse_number("12.e-3"), Ok(num("12.", Some("-3"))));
    assert_eq!(parse_number("9E-07"), Ok(num("9", Some("-07"))));
}
