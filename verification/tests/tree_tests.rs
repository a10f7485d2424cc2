use hocon::render::{text_of, write_integer};
use hocon::tree::{lookup, merge, place, Node};
use hocon::value::{OperationId, PathItem, Value};

fn chars(t: &str) -> Vec<char> {
    t.chars().collect()
}

fn key(name: &str) -> PathItem {
    PathItem::Key(chars(name))
}

fn leaf(i: i64) -> Node {
    Node::Leaf(Value::Integer(i))
}

fn hash(members: Vec<(&str, Node)>) -> Node {
    Node::Hash(members.into_iter().map(|(k, v)| (chars(k), v)).collect())
}

#[test]
fn place_creates_the_objects_on_the_way() {
    let tree = place(hash(vec![]), &vec![key("a"), key("b")], 0, leaf(1));
    assert_eq!(tree, hash(vec![("a", hash(vec![("b", leaf(1))]))]));
}

#[test]
fn place_keeps_the_place_of_a_member() {
    let tree = hash(vec![("a", leaf(1)), ("b", leaf(2))]);
    let tree = place(tree, &vec![key("a")], 0, leaf(3));
    assert_eq!(tree, hash(vec![("a", leaf(3)), ("b", leaf(2))]));
}

#[test]
fn place_goes_to_the_last_element_only_by_the_same_step() {
    let one = PathItem::Append(OperationId { tag: chars("t"), offset: 1 });
    let two = PathItem::Append(OperationId { tag: chars("t"), offset: 2 });
    let tree = place(hash(vec![]), &vec![key("a"), one], 0, hash(vec![("x", leaf(1))]));
    let one = PathItem::Append(OperationId { tag: chars("t"), offset: 1 });
    let tree = place(tree, &vec![key("a"), one, key("y")], 0, leaf(2));
    let tree = place(tree, &vec![key("a"), two], 0, leaf(3));
    match lookup(&tree, &vec![key("a")], 0) {
        Some(Node::Array(items, _)) => {
            assert_eq!(items, vec![hash(vec![("x", leaf(1)), ("y", leaf(2))]), leaf(3)]);
        }
        other => panic!("expected an array, got {:?}", other),
    }
}

#[test]
fn merge_joins_objects_and_replaces_all_else() {
    let old = hash(vec![("a", leaf(1)), ("b", hash(vec![("x", leaf(1))]))]);
    let new = hash(vec![("b", hash(vec![("y", leaf(2))])), ("c", leaf(3))]);
    assert_eq!(
        merge(old, new),
        hash(vec![("a", leaf(1)), ("b", hash(vec![("x", leaf(1)), ("y", leaf(2))])), ("c", leaf(3))])
    );
    assert_eq!(merge(hash(vec![("a", leaf(1))]), leaf(2)), leaf(2));
    assert_eq!(merge(leaf(2), hash(vec![("a", leaf(1))])), hash(vec![("a", leaf(1))]));
    assert_eq!(merge(Node::Array(vec![leaf(1)], None), Node::Array(vec![], None)), Node::Array(vec![], None));
}

#[test]
fn lookup_follows_keys() {
    let tree = hash(vec![("a", hash(vec![("b", leaf(1))]))]);
    assert_eq!(lookup(&tree, &vec![key("a"), key("b")], 0), Some(leaf(1)));
    assert_eq!(lookup(&tree, &vec![key("a"), key("c")], 0), None);
    assert_eq!(lookup(&tree, &vec![key("a"), key("b"), key("c")], 0), None);
    assert_eq!(lookup(&tree, &vec![], 0), Some(hash(vec![("a", hash(vec![("b", leaf(1))]))])));
    assert_eq!(lookup(&tree, &vec![PathItem::Index(0)], 0), None);
}

#[test]
fn integers_are_written_in_decimal() {
    assert_eq!(write_integer(0), chars("0"));
    assert_eq!(write_integer(7), chars("7"));
    assert_eq!(write_integer(-10), chars("-10"));
    assert_eq!(write_integer(1234567890), chars("1234567890"));
    assert_eq!(write_integer(i64::MAX), chars("9223372036854775807"));
    assert_eq!(write_integer(i64::MIN), chars("-9223372036854775808"));
}

#[test]
fn scalars_have_a_text_and_other_values_have_none() {
    assert_eq!(text_of(&Value::Null), Some(chars("null")));
    assert_eq!(text_of(&Value::Boolean(false)), Some(chars("false")));
    assert_eq!(text_of(&Value::Integer(-3)), Some(chars("-3")));
    assert_eq!(text_of(&Value::Real(chars("1.50"))), Some(chars("1.50")));
    assert_eq!(text_of(&Value::String(chars("s"))), Some(chars("s")));
    assert_eq!(text_of(&Value::EmptyObject), None);
    assert_eq!(text_of(&Value::Concat(vec![])), None);
}
