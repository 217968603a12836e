use jsnom::JsonValue::{Array, Bool, Null, Object};
use jsnom::parser::{array_at, bool_at, escape_at, null_at, number_at, object_at, string_at};
use jsnom::{chars_of, JsonNumber, JsonValue, DEFAULT_MAX_DEPTH};

fn text(t: &str) -> JsonValue {
    JsonValue::String(t.to_string())
}

/// The value of a number: the mantissa read as a decimal, times ten to the
/// power of the exponent.
fn value_of(n: &JsonNumber) -> f32 {
    let m: f32 = n.mantissa.parse().unwrap();
    match &n.exponent {
        Some(e) => m * 10f32.powf(e.parse::<f32>().unwrap()),
        None => m,
    }
}

/// Parses a number that must take the whole input; gives its value.
fn number_value(s: &str) -> f32 {
    let cs = chars_of(s);
    match number_at(&cs, 0) {
        Ok((JsonValue::Number(n), end)) => {
            assert_eq!(end, cs.len());
            value_of(&n)
        }
        other => panic!("not a number: {:?}", other),
    }
}

#[test]
fn nom_null() {
    assert_eq!(null_at(&chars_of("null"), 0), Ok((JsonValue::Null, 4)));
}

#[test]
fn nom_true() {
    assert_eq!(bool_at(&chars_of("true"), 0), Ok((JsonValue::Bool(true), 4)));
}

#[test]
fn nom_false() {
    assert_eq!(bool_at(&chars_of("false"), 0), Ok((JsonValue::Bool(false), 5)));
}

#[test]
fn nom_false_ws() {
    assert_eq!(bool_at(&chars_of(" false "), 0), Ok((JsonValue::Bool(false), 7)));
}

#[test]
fn nom_string() {
    let cs = chars_of("\"hello, world!\"");
    assert_eq!(string_at(&cs, 0), Ok((text("hello, world!"), cs.len())));
}

#[test]
fn nom_char_escaped() {
    assert_eq!(escape_at(&chars_of("\\n"), 0), Ok(('\n', 2)));
}

#[test]
fn nom_unicode() {
    assert_eq!(escape_at(&chars_of("\\u0d9e"), 0), Ok(('\u{0d9e}', 6)));
}

#[test]
fn nom_string_escaped() {
    let cs = chars_of("\"hello, world!\\n\"");
    assert_eq!(string_at(&cs, 0), Ok((text("hello, world!\n"), cs.len())));
}

#[test]
fn nom_array() {
    let cs = chars_of("[null, null , true,  false]");
    assert_eq!(
        array_at(&cs, 0, DEFAULT_MAX_DEPTH),
        Ok((Array(vec![Null, Null, Bool(true), Bool(false)]), cs.len()))
    );
}

#[test]
fn nom_array_nested() {
    let cs = chars_of("[[null, null] , true,  false]");
    assert_eq!(
        array_at(&cs, 0, DEFAULT_MAX_DEPTH),
        Ok((Array(vec![Array(vec![Null, Null]), Bool(true), Bool(false)]), cs.len()))
    );
}

#[test]
fn nom_integer() {
    assert_eq!(number_value("0234"), 234.0);
}

#[test]
#[should_panic]
fn nom_bad_integer() {
    assert_eq!(number_value("00234"), 234.0);
}

#[test]
fn nom_float() {
    assert_eq!(number_value("234.0123"), 234.0123);
}

#[test]
fn nom_float_negative() {
    assert_eq!(number_value("-234.0123"), -234.0123);
}

#[test]
fn nom_exponent() {
    assert_eq!(number_value("3e-2"), 0.03);
}

fn num(m: &str) -> JsonValue {
    JsonValue::Number(JsonNumber { mantissa: m.to_string(), exponent: None })
}

#[test]
fn nom_object() {
    let cs = chars_of("{\"item1\":null, \"item2\": null , \"my num\":  45, \"my_list\": [] }");
    let r = object_at(&cs, 0, DEFAULT_MAX_DEPTH);
    assert_eq!(
        r,
        Ok((
            Object(vec![
                (text("item1"), Null),
                (text("item2"), Null),
                (text("my num"), num("45")),
                (text("my_list"), Array(Vec::new()))
            ]),
            cs.len()
        ))
    );
    match r {
        Ok((Object(pairs), _)) => match &pairs[2].1 {
            JsonValue::Number(n) => assert_eq!(value_of(n), 45.0),
            _ => panic!("not a number"),
        },
        _ => panic!("not an object"),
    }
}

#[test]
fn nom_object_single() {
    let cs = chars_of("{\"item1\":null }");
    assert_eq!(
        object_at(&cs, 0, DEFAULT_MAX_DEPTH),
        Ok((Object(vec![(text("item1"), Null)]), cs.len()))
    );
}

#[test]
fn nom_object_nested() {
    let cs = chars_of("{\"item1\":null, \"item2\": null , \"my num\":  45, \"my_obj\": {} }");
    assert_eq!(
        object_at(&cs, 0, DEFAULT_MAX_DEPTH),
        Ok((
            Object(vec![
                (text("item1"), Null),
                (text("item2"), Null),
                (text("my num"), num("45")),
                (text("my_obj"), Object(Vec::new()))
            ]),
            cs.len()
        ))
    );
}
