use hocon::document::Document;
use hocon::grammar::include_parser;
use hocon::loader_config::{FileRead, HoconLoaderConfig};
use hocon::unescape::escape_finder;
use hocon::value::{PathItem, SourceKind, Value};

fn parse(text: &str) -> Document {
    let config = HoconLoaderConfig::default();
    config
        .parse_str_to_internal(FileRead { properties: None, json: None, hocon: Some(String::from(text)) })
        .expect("the text parses")
}

fn key(name: &str) -> PathItem {
    PathItem::Key(name.chars().collect())
}

fn text(t: &str) -> Vec<char> {
    t.chars().collect()
}

#[test]
fn parse_single_assignment() {
    let doc = parse("a = 1");
    assert_eq!(doc.entries.len(), 1);
    assert_eq!(doc.entries[0].path, vec![key("a")]);
    assert_eq!(doc.entries[0].value, Value::Integer(1));
}

#[test]
fn parse_nested_object_gives_paths() {
    let doc = parse("a { b : \"x\", c.d = true }");
    assert_eq!(doc.entries.len(), 2);
    assert_eq!(doc.entries[0].path, vec![key("a"), key("b")]);
    assert_eq!(doc.entries[0].value, Value::String(text("x")));
    assert_eq!(doc.entries[1].path, vec![key("a"), key("c"), key("d")]);
    assert_eq!(doc.entries[1].value, Value::Boolean(true));
}

#[test]
fn parse_array_gives_indexed_entries() {
    let doc = parse("a = [1, 2.5]");
    assert_eq!(doc.entries.len(), 3);
    assert_eq!(doc.entries[0].value, Value::EmptyArray);
    assert_eq!(doc.entries[1].path, vec![key("a"), PathItem::Index(0)]);
    assert_eq!(doc.entries[1].value, Value::Integer(1));
    assert_eq!(doc.entries[2].path, vec![key("a"), PathItem::Index(1)]);
    assert_eq!(doc.entries[2].value, Value::Real(text("2.5")));
}

#[test]
fn parse_multiline_string_keeps_extra_quotes() {
    let doc = parse("a = \"\"\"a\"b\"\"\"\"");
    assert_eq!(doc.entries.len(), 1);
    assert_eq!(doc.entries[0].value, Value::String(text("a\"b\"")));
}

fn directive(input: &str) -> Option<(SourceKind, String, usize)> {
    let s: Vec<char> = input.chars().collect();
    include_parser(&escape_finder(), &s, 0).map(|(kind, locator, end)| (kind, locator.iter().collect(), end))
}

#[test]
fn include_takes_a_quoted_target() {
    assert_eq!(directive("include \"foo.conf\""), Some((SourceKind::File, String::from("foo.conf"), 18)));
    assert_eq!(directive("include \"a b.conf\"  \nx"), Some((SourceKind::File, String::from("a b.conf"), 20)));
}

#[test]
fn include_takes_a_wrapped_target() {
    assert_eq!(directive("include file(\"foo.conf\")"), Some((SourceKind::File, String::from("foo.conf"), 24)));
    assert_eq!(
        directive("include url(\"http://example.com/a.conf\")"),
        Some((SourceKind::Url, String::from("http://example.com/a.conf"), 40))
    );
}

#[test]
fn include_takes_an_unquoted_target() {
    assert_eq!(directive("include foo.conf"), Some((SourceKind::File, String::from("foo.conf"), 16)));
    assert_eq!(directive("include   conf.d/foo.conf  \na = 1"), Some((SourceKind::File, String::from("conf.d/foo.conf"), 27)));
    assert_eq!(directive("include foo.conf,b = 1"), Some((SourceKind::File, String::from("foo.conf"), 16)));
}

#[test]
fn include_without_a_target_is_no_directive() {
    assert_eq!(directive("include "), None);
    assert_eq!(directive("include = 1"), None);
    assert_eq!(directive("include file(foo.conf)"), None);
    assert_eq!(directive("include url(\"x\""), None);
    assert_eq!(directive("included foo.conf"), None);
}

#[test]
fn unquoted_include_is_a_request_for_a_file() {
    let doc = parse("a { include foo.conf }\nb = 1");
    assert_eq!(doc.entries.len(), 2);
    assert_eq!(doc.entries[0].path, vec![key("a")]);
    assert!(matches!(
        &doc.entries[0].value,
        Value::Inclusion { kind: SourceKind::File, locator, depth: 0, .. } if *locator == text("foo.conf")
    ));
    assert_eq!(doc.entries[1].path, vec![key("b")]);
}
