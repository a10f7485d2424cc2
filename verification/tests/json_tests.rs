use hocon::error::Error;
use hocon::hocon::Hocon;
use hocon::loader_config::{FileRead, HoconLoaderConfig};
use serde_json::Value;

fn load_json(text: &str) -> Hocon {
    HoconLoaderConfig::default()
        .parse_str_to_internal(FileRead { properties: None, json: Some(String::from(text)), hocon: None })
        .expect("the text parses")
        .hocon(false)
        .expect("a loader that is not strict always gives a value")
}

fn same(loaded: &Hocon, reference: &Value) -> bool {
    match (loaded, reference) {
        (Hocon::Null, Value::Null) => true,
        (Hocon::Boolean(a), Value::Bool(b)) => a == b,
        (Hocon::Integer(a), Value::Number(b)) => b.as_i64() == Some(*a),
        (Hocon::Real(a), Value::Number(b)) => a.parse::<f64>().ok() == b.as_f64(),
        (Hocon::String(a), Value::String(b)) => a == b,
        (Hocon::Array(a), Value::Array(b)) => {
            a.len() == b.len() && a.iter().zip(b.iter()).all(|(x, y)| same(x, y))
        }
        (Hocon::Hash(a), Value::Object(b)) => {
            a.len() == b.len() && a.iter().all(|(k, v)| b.get(k).map_or(false, |w| same(v, w)))
        }
        _ => false,
    }
}

fn agrees_with_reference(text: &str) {
    let reference: Value = serde_json::from_str(text).expect("the text is JSON");
    let loaded = load_json(text);
    assert!(same(&loaded, &reference), "{:?} is not {:?}", loaded, reference);
}

#[test]
fn json_flat_object_agrees_with_reference() {
    agrees_with_reference(r#"{"a": 1, "b": "two", "c": true, "d": null, "e": -3.25}"#);
}

#[test]
fn json_nested_document_agrees_with_reference() {
    agrees_with_reference(
        r#"{
            "name": "service",
            "ports": [80, 443, 8080],
            "limits": {"cpu": 0.5, "memory": 1e9, "tags": ["a", {"deep": [[], {}, [null]]}]},
            "empty": {},
            "none": []
        }"#,
    );
}

#[test]
fn json_escapes_agree_with_reference() {
    agrees_with_reference(r#"{"s": "q\"b\\s\/n\nt\tr\ru\u00e9 \ud83d\ude00", "k\"ey": "v"}"#);
}

#[test]
fn json_numbers_agree_with_reference() {
    agrees_with_reference(
        r#"{"zero": 0, "neg": -7, "big": 9223372036854775807, "small": -9223372036854775808,
            "frac": 0.001, "exp": 2E-3, "exp2": 1e+2, "neg_frac": -12.5e1}"#,
    );
}

#[test]
fn json_with_windows_line_ends_agrees_with_reference() {
    agrees_with_reference("{\r\n  \"a\": [1,\r\n 2],\r\n  \"b\": \"x\"\r\n}\r\n");
}

#[test]
fn json_duplicate_key_takes_the_last_value() {
    agrees_with_reference(r#"{"a": 1, "a": 2}"#);
}

#[test]
fn json_minus_zero_is_the_integer_zero() {
    assert_eq!(load_json(r#"{"a": -0}"#), Hocon::Hash(vec![(String::from("a"), Hocon::Integer(0))]));
}

#[test]
fn json_root_array_agrees_with_reference() {
    agrees_with_reference("[1, 2]");
    agrees_with_reference("[]");
    agrees_with_reference(" [\n  {\"a\": [true, null]},\n  \"x\",\n  [[], 1.5]\n]\n");
    assert_eq!(load_json("[1, 2]"), Hocon::Array(vec![Hocon::Integer(1), Hocon::Integer(2)]));
}

#[test]
fn json_root_array_is_read_to_its_end() {
    let mut config = HoconLoaderConfig::default();
    config.strict = true;
    let doc = config
        .parse_str_to_internal(FileRead { properties: None, json: Some(String::from("[1, [2]]\n")), hocon: None })
        .expect("the text is read to its end");
    assert_eq!(
        doc.hocon(true),
        Ok(Hocon::Array(vec![Hocon::Integer(1), Hocon::Array(vec![Hocon::Integer(2)])]))
    );
}

#[test]
fn json_short_unicode_escape_is_a_parse_error() {
    let read = |text: &str| {
        HoconLoaderConfig::default()
            .parse_str_to_internal(FileRead { properties: None, json: Some(String::from(text)), hocon: None })
            .err()
    };
    assert_eq!(read(r#"{"a": "\u12"}"#), Some(Error::Parse));
    assert_eq!(read(r#"{"a": "\u12g4"}"#), Some(Error::Parse));
    assert_eq!(read(r#"{"a": "\u"}"#), Some(Error::Parse));
    assert_eq!(read(r#"{"a": "\u+123"}"#), Some(Error::Parse));
    assert_eq!(read(r#"{"a": "\u0041"}"#), None);
}

#[test]
fn json_behind_spaces_agrees_with_reference() {
    agrees_with_reference(" \t {\"a\": {\"b\": [true, \"x\"]}} \t\r\n\n");
}

#[test]
fn json_behind_spaces_is_read_to_its_end() {
    let mut config = HoconLoaderConfig::default();
    config.strict = true;
    let doc = config
        .parse_str_to_internal(FileRead {
            properties: None,
            json: Some(String::from("  {\"a\": 1}\t\r\n")),
            hocon: None,
        })
        .expect("the text is read to its end");
    assert_eq!(
        doc.hocon(true).expect("nothing in it fails"),
        Hocon::Hash(vec![(String::from("a"), Hocon::Integer(1))])
    );
}

#[test]
fn json_line_break_before_a_comma_is_a_parse_error() {
    let read = HoconLoaderConfig::default().parse_str_to_internal(FileRead {
        properties: None,
        json: Some(String::from("{\"a\": 1\n, \"b\": 3}")),
        hocon: None,
    });
    assert_eq!(read.err(), Some(Error::Parse));
    let read = HoconLoaderConfig::default().parse_str_to_internal(FileRead {
        properties: None,
        json: Some(String::from("{\"a\": [1\n,2], \"b\": 3}")),
        hocon: None,
    });
    assert_eq!(read.err(), Some(Error::Parse));
}

#[test]
fn json_behind_a_line_break_is_not_read() {
    assert_eq!(load_json("\n{\"a\": 1}"), Hocon::Hash(vec![]));
}

#[test]
fn json_objects_under_one_name_are_merged() {
    assert_eq!(
        load_json(r#"{"a": {"x": 1}, "a": {"y": 2}}"#),
        Hocon::Hash(vec![(
            String::from("a"),
            Hocon::Hash(vec![
                (String::from("x"), Hocon::Integer(1)),
                (String::from("y"), Hocon::Integer(2)),
            ]),
        )])
    );
}

#[test]
fn json_before_blank_lines_agrees_with_reference() {
    agrees_with_reference("{\"a\": [1, 2]}\n  \n\t\n ");
}

#[test]
fn json_before_blank_lines_is_incomplete_for_a_strict_loader() {
    let mut config = HoconLoaderConfig::default();
    config.strict = true;
    let read = config.parse_str_to_internal(FileRead {
        properties: None,
        json: Some(String::from("{\"a\": [1, 2]}\n  \n")),
        hocon: None,
    });
    assert_eq!(read.err(), Some(Error::Parse));
}
