use hocon::hocon::project;
use hocon::loader_config::{FileRead, HoconLoaderConfig};
use hocon::resolve::resolve;
use hocon::tree::Node;

fn tree(text: &str) -> Node {
    let doc = HoconLoaderConfig::default()
        .parse_str_to_internal(FileRead { properties: None, json: None, hocon: Some(String::from(text)) })
        .expect("the text parses");
    resolve(&doc)
}

fn reads_back(text: &str) -> String {
    let first = tree(text);
    let minimal = first.minimal_text();
    let second = tree(&minimal);
    assert_eq!(project(&first), project(&second), "{} reads back differently", minimal);
    assert_eq!(second.minimal_text(), minimal);
    minimal
}

#[test]
fn minimal_text_of_scalars() {
    assert_eq!(
        reads_back("a = 1\nb = -2.50\nc = yes\nd = true\ne = null\nf = \"null\""),
        "{\"a\":1,\"b\":-2.50,\"c\":\"yes\",\"d\":true,\"e\":null,\"f\":\"null\"}"
    );
}

#[test]
fn minimal_text_of_nested_tree() {
    assert_eq!(
        reads_back("a { b = [1, [2, 3], {c: []}], d {} }\ne = [ ]"),
        "{\"a\":{\"b\":[1,[2,3],{\"c\":[]}],\"d\":{}},\"e\":[]}"
    );
}

#[test]
fn minimal_text_escapes_what_ends_a_string() {
    assert_eq!(
        reads_back("\"k\\\"1\" = \"line\\none \\\\ \\\"two\\\"\\r\""),
        "{\"k\\\"1\":\"line\\none \\\\ \\\"two\\\"\\r\"}"
    );
}

#[test]
fn minimal_text_of_empty_document() {
    assert_eq!(reads_back(""), "{}");
}

#[test]
fn minimal_text_keeps_text_beyond_ascii() {
    assert_eq!(reads_back("a = \"h\u{e9}llo \u{4e16}\u{754c}\""), "{\"a\":\"h\u{e9}llo \u{4e16}\u{754c}\"}");
}

#[test]
fn minimal_text_after_merges_and_appends() {
    assert_eq!(
        reads_back("a = {x: 1}\na = {y: [1]}\na.y += 2\nb = ${a.x}"),
        "{\"a\":{\"x\":1,\"y\":[1,2]},\"b\":1}"
    );
}
