use hocon::document::Document;
use hocon::value::{Entry, OperationId, PathItem, SourceKind, Value};
use hocon::words::{blank, split_key, trim};

fn chars(t: &str) -> Vec<char> {
    t.chars().collect()
}

fn key(name: &str) -> PathItem {
    PathItem::Key(chars(name))
}

fn entry(path: Vec<PathItem>, value: Value) -> Entry {
    Entry { path, value, root: None }
}

#[test]
fn empty_document_has_no_entries() {
    assert_eq!(Document::empty().entries, vec![]);
}

#[test]
fn add_keeps_the_order_of_both_documents() {
    let a = Document { entries: vec![entry(vec![key("a")], Value::Integer(1))] };
    let b = Document {
        entries: vec![entry(vec![key("b")], Value::Integer(2)), entry(vec![key("a")], Value::Integer(3))],
    };
    assert_eq!(
        a.add(b).entries,
        vec![
            entry(vec![key("a")], Value::Integer(1)),
            entry(vec![key("b")], Value::Integer(2)),
            entry(vec![key("a")], Value::Integer(3))
        ]
    );
}

#[test]
fn from_value_stands_at_the_root() {
    assert_eq!(Document::from_value(Value::Boolean(true)).entries, vec![entry(vec![], Value::Boolean(true))]);
}

#[test]
fn from_object_without_members_is_the_empty_object() {
    assert_eq!(Document::from_object(Document::empty()).entries, vec![entry(vec![], Value::EmptyObject)]);
    let members = Document { entries: vec![entry(vec![key("a")], Value::Integer(1))] };
    assert_eq!(Document::from_object(members).entries, vec![entry(vec![key("a")], Value::Integer(1))]);
}

#[test]
fn from_array_numbers_the_elements() {
    let items = vec![
        Document::from_value(Value::Integer(7)),
        Document { entries: vec![entry(vec![key("x")], Value::Null), entry(vec![key("y")], Value::Null)] },
    ];
    assert_eq!(
        Document::from_array(items).entries,
        vec![
            entry(vec![], Value::EmptyArray),
            entry(vec![PathItem::Index(0)], Value::Integer(7)),
            entry(vec![PathItem::Index(1), key("x")], Value::Null),
            entry(vec![PathItem::Index(1), key("y")], Value::Null)
        ]
    );
    assert_eq!(Document::from_array(vec![]).entries, vec![entry(vec![], Value::EmptyArray)]);
}

#[test]
fn add_to_path_prefixes_every_entry() {
    let doc = Document {
        entries: vec![
            entry(vec![], Value::Integer(1)),
            Entry { path: vec![key("b")], value: Value::Integer(2), root: Some(vec![key("r")]) },
        ],
    };
    assert_eq!(
        doc.add_to_path(&vec![key("p"), key("q")]).entries,
        vec![
            entry(vec![key("p"), key("q")], Value::Integer(1)),
            Entry {
                path: vec![key("p"), key("q"), key("b")],
                value: Value::Integer(2),
                root: Some(vec![key("p"), key("q"), key("r")])
            }
        ]
    );
}

#[test]
fn stamp_marks_operators_and_requests() {
    let id = |tag: &str| PathItem::Append(OperationId { tag: chars(tag), offset: 5 });
    let doc = Document {
        entries: vec![
            entry(vec![key("a"), id("")], Value::Integer(1)),
            entry(
                vec![key("b")],
                Value::Inclusion { kind: SourceKind::File, locator: chars("x.conf"), depth: 0, base: None },
            ),
        ],
    };
    assert_eq!(
        doc.stamp(&chars("t1"), 3, &Some(chars("dir/"))).entries,
        vec![
            entry(vec![key("a"), id("t1")], Value::Integer(1)),
            entry(
                vec![key("b")],
                Value::Inclusion {
                    kind: SourceKind::File,
                    locator: chars("x.conf"),
                    depth: 3,
                    base: Some(chars("dir/"))
                }
            ),
        ]
    );
}

#[test]
fn keys_are_split_at_dots_unless_quoted() {
    assert_eq!(split_key(&chars("a. b .c"), false), vec![key("a"), key("b"), key("c")]);
    assert_eq!(split_key(&chars("a. b .c"), true), vec![key("a. b .c")]);
    assert_eq!(split_key(&chars("a..b"), false), vec![key("a"), key(""), key("b")]);
    assert_eq!(split_key(&chars(""), false), vec![key("")]);
    assert_eq!(split_key(&chars("solo "), false), vec![key("solo")]);
}

#[test]
fn trim_cuts_spaces_at_both_ends() {
    assert_eq!(trim(&chars("  a b\u{a0} ")), chars("a b"));
    assert_eq!(trim(&chars(" \r ")), chars(""));
    assert_eq!(trim(&chars("x")), chars("x"));
    assert!(blank(&chars(" \u{2007} ")));
    assert!(blank(&chars("")));
    assert!(!blank(&chars(" . ")));
}
