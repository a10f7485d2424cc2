use hocon::error::Error;
use hocon::hocon::Hocon;
use hocon::loader_config::{FileRead, HoconLoaderConfig};

fn load(text: &str) -> Hocon {
    let config = HoconLoaderConfig::default();
    config
        .parse_str_to_internal(FileRead { properties: None, json: None, hocon: Some(String::from(text)) })
        .expect("the text parses")
        .hocon(false)
        .expect("a loader that is not strict always gives a value")
}

fn hash(members: Vec<(&str, Hocon)>) -> Hocon {
    Hocon::Hash(members.into_iter().map(|(k, v)| (String::from(k), v)).collect())
}

fn string(t: &str) -> Hocon {
    Hocon::String(String::from(t))
}

#[test]
fn later_scalar_replaces_earlier() {
    assert_eq!(load("a = 1\na = 2"), hash(vec![("a", Hocon::Integer(2))]));
}

#[test]
fn objects_at_one_path_are_merged() {
    assert_eq!(
        load("a = {x:1}\na = {y:2}"),
        hash(vec![("a", hash(vec![("x", Hocon::Integer(1)), ("y", Hocon::Integer(2))]))])
    );
}

#[test]
fn append_adds_one_element() {
    assert_eq!(
        load("a = [1,2]\na += 3"),
        hash(vec![("a", Hocon::Array(vec![Hocon::Integer(1), Hocon::Integer(2), Hocon::Integer(3)]))])
    );
}

#[test]
fn substitution_takes_the_value_at_its_path() {
    assert_eq!(load("a = 1\nb = ${a}"), hash(vec![("a", Hocon::Integer(1)), ("b", Hocon::Integer(1))]));
}

#[test]
fn optional_substitution_without_target_is_left_out() {
    assert_eq!(load("a = 1\nb = ${?missing}"), hash(vec![("a", Hocon::Integer(1))]));
}

#[test]
fn required_substitution_without_target_is_a_bad_value() {
    assert_eq!(
        load("b = ${missing}"),
        hash(vec![("b", Hocon::BadValue(Error::KeyNotFound { key: String::from("missing") }))])
    );
}

#[test]
fn multiline_string_ends_with_the_last_three_quotes() {
    assert_eq!(load("s = \"\"\"a\"b\"\"\"\""), hash(vec![("s", string("a\"b\""))]));
}

#[test]
fn substitution_may_name_a_later_path() {
    assert_eq!(load("b = ${a}\na = 7"), hash(vec![("b", Hocon::Integer(7)), ("a", Hocon::Integer(7))]));
}

#[test]
fn substitution_chain_is_followed() {
    assert_eq!(
        load("c = ${b}\nb = ${a}\na = x"),
        hash(vec![("c", string("x")), ("b", string("x")), ("a", string("x"))])
    );
}

#[test]
fn substitution_cycle_gives_bad_values() {
    let loaded = load("a = ${b}\nb = ${a}");
    match loaded {
        Hocon::Hash(members) => {
            assert_eq!(members.len(), 2);
            assert!(matches!(members[0].1, Hocon::BadValue(_)));
            assert!(matches!(members[1].1, Hocon::BadValue(_)));
        }
        other => panic!("expected an object, got {:?}", other),
    }
}

#[test]
fn self_reference_sees_only_earlier_entries() {
    assert_eq!(load("a = x\na = ${a}y"), hash(vec![("a", string("xy"))]));
}

#[test]
fn self_reference_without_earlier_value_is_a_bad_value() {
    let loaded = load("a = ${a}");
    assert_eq!(loaded, hash(vec![("a", Hocon::BadValue(Error::KeyNotFound { key: String::from("a") }))]));
}

#[test]
fn later_array_literal_replaces_earlier() {
    assert_eq!(load("a = [1,2,3]\na = [4]"), hash(vec![("a", Hocon::Array(vec![Hocon::Integer(4)]))]));
}

#[test]
fn two_appends_keep_their_order() {
    assert_eq!(
        load("a += 1\na += {x: 2, y: 3}\na += 4"),
        hash(vec![(
            "a",
            Hocon::Array(vec![
                Hocon::Integer(1),
                hash(vec![("x", Hocon::Integer(2)), ("y", Hocon::Integer(3))]),
                Hocon::Integer(4)
            ])
        )])
    );
}

#[test]
fn array_may_begin_with_the_elements_of_another() {
    assert_eq!(
        load("a = [1,2]\nb = ${a} [3]"),
        hash(vec![
            ("a", Hocon::Array(vec![Hocon::Integer(1), Hocon::Integer(2)])),
            ("b", Hocon::Array(vec![Hocon::Integer(1), Hocon::Integer(2), Hocon::Integer(3)]))
        ])
    );
}

#[test]
fn object_may_be_laid_over_another() {
    assert_eq!(
        load("base = {x: 1, y: 2}\nc = ${base} {y: 3}"),
        hash(vec![
            ("base", hash(vec![("x", Hocon::Integer(1)), ("y", Hocon::Integer(2))])),
            ("c", hash(vec![("x", Hocon::Integer(1)), ("y", Hocon::Integer(3))]))
        ])
    );
}

#[test]
fn values_side_by_side_are_joined() {
    assert_eq!(
        load("a = 1 b true\nn = foo\nc = ${n} bar ${?none}baz "),
        hash(vec![("a", string("1 b true")), ("n", string("foo")), ("c", string("foo bar baz"))])
    );
}

#[test]
fn unquoted_null_is_null() {
    assert_eq!(load("a = null\nb = \"null\""), hash(vec![("a", Hocon::Null), ("b", string("null"))]));
}

#[test]
fn numbers_are_integers_or_kept_as_written() {
    assert_eq!(
        load("a = -12\nb = 1.5e3\nc = 9223372036854775808\nd = -9223372036854775808"),
        hash(vec![
            ("a", Hocon::Integer(-12)),
            ("b", Hocon::Real(String::from("1.5e3"))),
            ("c", Hocon::Real(String::from("9223372036854775808"))),
            ("d", Hocon::Integer(i64::MIN))
        ])
    );
}

#[test]
fn comments_and_separators() {
    let text = "// first\n# second\na = 1 // trailing\nb : 2, c = 3\n\n\nd { e = 4 } # end\n";
    assert_eq!(
        load(text),
        hash(vec![
            ("a", Hocon::Integer(1)),
            ("b", Hocon::Integer(2)),
            ("c", Hocon::Integer(3)),
            ("d", hash(vec![("e", Hocon::Integer(4))]))
        ])
    );
}

#[test]
fn json_document_loads() {
    let text = "{\"a\": [1, {\"b\": null}, \"x\\ny\"], \"c\": {\"d\": true, \"e\": -0.5}}";
    assert_eq!(
        load(text),
        hash(vec![
            ("a", Hocon::Array(vec![Hocon::Integer(1), hash(vec![("b", Hocon::Null)]), string("x\ny")])),
            ("c", hash(vec![("d", Hocon::Boolean(true)), ("e", Hocon::Real(String::from("-0.5")))]))
        ])
    );
}

#[test]
fn empty_document_is_an_empty_object() {
    assert_eq!(load(""), hash(vec![]));
}

#[test]
fn empty_object_and_array() {
    assert_eq!(load("a = {}\nb = []"), hash(vec![("a", hash(vec![])), ("b", Hocon::Array(vec![]))]));
}

#[test]
fn dotted_key_is_a_path() {
    assert_eq!(
        load("a.b.c = 1\na.b.d = 2\n\"x.y\" = 3"),
        hash(vec![
            ("a", hash(vec![("b", hash(vec![("c", Hocon::Integer(1)), ("d", Hocon::Integer(2))]))])),
            ("x.y", Hocon::Integer(3))
        ])
    );
}

#[test]
fn scalar_over_object_replaces_it() {
    assert_eq!(load("a { x = 1 }\na = 2\na { y = 3 }"), hash(vec![("a", hash(vec![("y", Hocon::Integer(3))]))]));
}

#[test]
fn strict_loader_fails_on_first_bad_value() {
    let config = HoconLoaderConfig::default();
    let doc = config
        .parse_str_to_internal(FileRead { properties: None, json: None, hocon: Some(String::from("a = ${x}\nb = ${y}")) })
        .expect("the text parses");
    assert_eq!(doc.hocon(true), Err(Error::KeyNotFound { key: String::from("x") }));
}

#[test]
fn strict_loader_rejects_unread_text() {
    let config = HoconLoaderConfig { strict: true, ..HoconLoaderConfig::default() };
    let r = config.parse_str_to_internal(FileRead {
        properties: None,
        json: None,
        hocon: Some(String::from("a = 1\n}")),
    });
    assert_eq!(r, Err(Error::Parse));
}

#[test]
fn lenient_loader_takes_what_was_read() {
    assert_eq!(load("a = 1\n}"), hash(vec![("a", Hocon::Integer(1))]));
}

#[test]
fn malformed_object_is_a_parse_error() {
    let config = HoconLoaderConfig::default();
    let r = config.parse_str_to_internal(FileRead {
        properties: None,
        json: None,
        hocon: Some(String::from("{ a = 1")),
    });
    assert_eq!(r, Err(Error::Parse));
}

#[test]
fn formats_override_in_fixed_order() {
    let config = HoconLoaderConfig::default();
    let doc = config
        .parse_str_to_internal(FileRead {
            properties: Some(String::from("a=from properties\nb=only properties\n")),
            json: Some(String::from("{\"a\": \"from json\", \"c\": \"only json\"}")),
            hocon: Some(String::from("c = from hocon")),
        })
        .expect("the texts parse");
    assert_eq!(
        doc.hocon(false),
        Ok(hash(vec![("a", string("from json")), ("b", string("only properties")), ("c", string("from hocon"))]))
    );
}

#[test]
fn array_may_begin_with_its_own_earlier_elements() {
    assert_eq!(
        load("a = [1,2]\na = ${a} [3]"),
        hash(vec![("a", Hocon::Array(vec![Hocon::Integer(1), Hocon::Integer(2), Hocon::Integer(3)]))])
    );
}

#[test]
fn array_that_begins_with_a_missing_one_holds_the_failure() {
    assert_eq!(
        load("a = [1]\na = ${none} [3]"),
        hash(vec![(
            "a",
            Hocon::Array(vec![
                Hocon::BadValue(Error::KeyNotFound { key: String::from("none") }),
                Hocon::Integer(3)
            ])
        )])
    );
}

#[test]
fn arrays_side_by_side_are_one_array() {
    assert_eq!(
        load("a = [1] [2, 3] []"),
        hash(vec![("a", Hocon::Array(vec![Hocon::Integer(1), Hocon::Integer(2), Hocon::Integer(3)]))])
    );
}

#[test]
fn objects_side_by_side_are_merged() {
    assert_eq!(
        load("a = {x: 1} {y: 2} {x: 3}"),
        hash(vec![("a", hash(vec![("x", Hocon::Integer(3)), ("y", Hocon::Integer(2))]))])
    );
}

#[test]
fn object_may_be_laid_over_its_own_earlier_members() {
    assert_eq!(
        load("a = {x: 1}\na = ${a} {y: 2}"),
        hash(vec![("a", hash(vec![("x", Hocon::Integer(1)), ("y", Hocon::Integer(2))]))])
    );
}

#[test]
fn append_to_what_is_no_array_starts_one() {
    assert_eq!(load("a = 1\na += 2"), hash(vec![("a", Hocon::Array(vec![Hocon::Integer(2)]))]));
    assert_eq!(load("b += x"), hash(vec![("b", Hocon::Array(vec![string("x")]))]));
}

#[test]
fn append_follows_a_substituted_array() {
    assert_eq!(
        load("b = [1]\na = ${b}\na += 2"),
        hash(vec![
            ("b", Hocon::Array(vec![Hocon::Integer(1)])),
            ("a", Hocon::Array(vec![Hocon::Integer(1), Hocon::Integer(2)]))
        ])
    );
}

#[test]
fn member_without_separator_before_object() {
    assert_eq!(
        load("a { b { c = 1 } }\na.b { d = 2 }"),
        hash(vec![("a", hash(vec![("b", hash(vec![("c", Hocon::Integer(1)), ("d", Hocon::Integer(2))]))]))])
    );
}
