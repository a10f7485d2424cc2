//! The resolution of a document: its entries are folded, in the order in
//! which they were written, into a tree, and every substitution is
//! replaced by what stands at the path that it names.
//!
//! A substitution may name a path that is written further down, so one
//! pass is not enough. The fold is repeated: in each round a substitution
//! finds its target in the tree of the round before. Only a substitution
//! that names the path of its own entry, or a path above or below it, looks
//! at the tree of its own round, as far as it is built: at the entries
//! that were written before it. The number of rounds is bounded by the
//! number of entries that hold a substitution.

use crate::document::Document;
use crate::error::{Error, ErrorView};
use crate::render::{text_of, value_text};
use crate::text::{copy_range, push_chars, string_of};
use crate::tree::{
    empty_array, empty_hash, lemma_array_view, lemma_hash_view, looked_up, lookup, members_view,
    nodes_view, optional_node, place, placed, Node, NodeView,
};
use crate::value::{
    join_paths, optional_path_view, path_view, Entry, EntryView, PathItem, PathView, Value,
    ValueView,
};
use crate::words::{
    key_path, skip_leading, skip_trailing, split_key, trim, trim_end, trim_start, trimmed,
};
use vstd::prelude::*;

verus! {

/// Whether the path `a` begins the path `b`.
pub open spec fn is_prefix(a: PathView, b: PathView) -> bool {
    a.len() <= b.len() && b.subrange(0, a.len() as int) == a
}

/// Whether a substitution in the entry at `entry` that names `target`
/// refers to its own entry: to its path, or to one above or below it.
pub open spec fn refers_to_itself(entry: PathView, target: PathView) -> bool {
    is_prefix(target, entry) || is_prefix(entry, target)
}

/// Whether the path `a` begins the path `b`.
pub fn path_is_prefix(a: &Vec<PathItem>, b: &Vec<PathItem>) -> (r: bool)
    ensures
        r == is_prefix(path_view(a@), path_view(b@)),
{
    if a.len() > b.len() {
        return false;
    }
    let mut i: usize = 0;
    while i < a.len()
        invariant
            i <= a.len() <= b.len(),
            forall|k: int| 0 <= k < i ==> a@[k]@ == b@[k]@,
        decreases a.len() - i,
    {
        if !a[i].same(&b[i]) {
            assert(path_view(b@).subrange(0, a@.len() as int)[i as int] != path_view(a@)[i as int]);
            return false;
        }
        i += 1;
    }
    assert(path_view(b@).subrange(0, a@.len() as int) =~= path_view(a@));
    true
}

/// The path that the target of a substitution names: the steps of a word,
/// split at its dots, or the one step of a quoted string. Any other value
/// names no path.
pub open spec fn target_path(expr: ValueView) -> Option<PathView> {
    match expr {
        ValueView::UnquotedString(t) => Some(key_path(t, false)),
        ValueView::String(t) => Some(key_path(t, true)),
        _ => None,
    }
}

/// The text by which an error names the target of a substitution.
pub open spec fn target_key(expr: ValueView) -> Seq<char> {
    match value_text(expr) {
        Some(t) => t,
        None => Seq::empty(),
    }
}

/// The error for a substitution whose target has no value.
pub open spec fn missing(expr: ValueView) -> ErrorView {
    ErrorView::KeyNotFound { key: target_key(expr) }
}

/// What stands at `path` for a substitution in the entry at `entry`: in
/// the tree of this round, `tree`, if the substitution refers to its own
/// entry, and else in the tree of the round before, `full`.
pub open spec fn found(tree: NodeView, full: Option<NodeView>, entry: PathView, path: PathView) -> Option<
    NodeView,
> {
    if refers_to_itself(entry, path) {
        looked_up(tree, path, 0)
    } else {
        match full {
            Some(f) => looked_up(f, path, 0),
            None => None,
        }
    }
}

/// What a substitution in the entry `e` that names `path` stands for. In
/// an entry that came in with another document, the path is first read
/// from the place where that document was brought in, and then from the
/// root.
pub open spec fn substituted(
    tree: NodeView,
    full: Option<NodeView>,
    entry: PathView,
    root: Option<PathView>,
    path: PathView,
) -> Option<NodeView> {
    let local = match root {
        Some(r) => found(tree, full, entry, r + path),
        None => None,
    };
    if local is Some {
        local
    } else {
        found(tree, full, entry, path)
    }
}

/// The leaf for a value that was written as it is: a word is cut at its
/// ends and is `null` or a string; any other value stays.
pub open spec fn leaf_for(v: ValueView) -> NodeView {
    match v {
        ValueView::UnquotedString(t) => if trimmed(t) == seq!['n', 'u', 'l', 'l'] {
            NodeView::Leaf(ValueView::Null)
        } else {
            NodeView::Leaf(ValueView::String(trimmed(t)))
        },
        other => NodeView::Leaf(other),
    }
}

/// The leaf that stands for a failure.
pub open spec fn bad_leaf(e: ErrorView) -> NodeView {
    NodeView::Leaf(ValueView::BadValue(e))
}

/// A word without the spaces at its start if it is the first of the
/// values written side by side, and without those at its end if it is the
/// last.
pub open spec fn word_part(t: Seq<char>, first: bool, last: bool) -> Seq<char> {
    let from = if first {
        trim_start(t, 0, t.len() as int)
    } else {
        0
    };
    let to = if last {
        trim_end(t, from, t.len() as int)
    } else {
        t.len() as int
    };
    t.subrange(from, to)
}

/// The text of what a substitution among values written side by side
/// stands for. It has to stand for a scalar; one that may find nothing,
/// and finds nothing, adds nothing.
pub open spec fn substitution_text(target: ValueView, optional: bool, hit: Option<NodeView>) -> Result<
    Seq<char>,
    ErrorView,
> {
    match hit {
        Some(NodeView::Leaf(ValueView::BadValue(e))) => Err(e),
        Some(NodeView::Leaf(v)) => match value_text(v) {
            Some(t) => Ok(t),
            None => Err(ErrorView::InvalidValue),
        },
        Some(_) => Err(ErrorView::InvalidValue),
        None => if optional {
            Ok(Seq::empty())
        } else {
            Err(missing(target))
        },
    }
}

/// The text that one of the values written side by side adds.
pub open spec fn part_text(
    part: ValueView,
    first: bool,
    last: bool,
    tree: NodeView,
    full: Option<NodeView>,
    e: EntryView,
) -> Result<Seq<char>, ErrorView> {
    match part {
        ValueView::UnquotedString(t) => Ok(word_part(t, first, last)),
        ValueView::PathSubstitution { target, optional, original } => match target_path(*target) {
            Some(p) => substitution_text(*target, optional, substituted(tree, full, e.path, e.root, p)),
            None => Err(ErrorView::InvalidValue),
        },
        other => match value_text(other) {
            Some(t) => Ok(t),
            None => Err(ErrorView::InvalidValue),
        },
    }
}

/// The texts of the first `count` of the values `parts`, joined; or the
/// first failure among them.
pub open spec fn joined_parts(
    parts: Seq<ValueView>,
    count: nat,
    tree: NodeView,
    full: Option<NodeView>,
    e: EntryView,
) -> Result<Seq<char>, ErrorView>
    decreases count,
{
    if count == 0 || count > parts.len() {
        Ok(Seq::empty())
    } else {
        match joined_parts(parts, (count - 1) as nat, tree, full, e) {
            Err(err) => Err(err),
            Ok(t) => match part_text(
                parts[count - 1],
                count == 1,
                count == parts.len(),
                tree,
                full,
                e,
            ) {
                Ok(p) => Ok(t + p),
                Err(err) => Err(err),
            },
        }
    }
}

/// The array that holds nothing but a failure.
pub open spec fn bad_array(e: ErrorView) -> NodeView {
    NodeView::Array(seq![bad_leaf(e)], None)
}

/// The tree `tree` with the entry `e` written into it, where `full` is the
/// tree of the round before.
///
/// A scalar replaces what stands at its path. An empty object makes sure
/// that an object stands there; an empty array replaces what stands there,
/// so that every array literal starts anew. A substitution writes what it
/// stands for: an object is merged with the object at its path, anything
/// else replaces what is there. One that finds nothing leaves the tree as
/// it is if it may find nothing, and else writes a failure. A substitution
/// that an array begins with replaces what stands at its path by an array
/// of the elements of its target, or of the failure to find them; the
/// elements that are written behind it follow. Values written side by side
/// are joined
/// to one string. A request for another document that is still there is
/// a failure.
pub open spec fn applied(tree: NodeView, full: Option<NodeView>, e: EntryView) -> NodeView {
    match e.value {
        ValueView::EmptyObject => placed(tree, e.path, 0, empty_hash()),
        ValueView::EmptyArray => placed(tree, e.path, 0, empty_array()),
        ValueView::PathSubstitution { target, optional, original } => match target_path(*target) {
            Some(p) => match substituted(tree, full, e.path, e.root, p) {
                Some(node) => placed(tree, e.path, 0, node),
                None => if optional {
                    tree
                } else {
                    placed(tree, e.path, 0, bad_leaf(missing(*target)))
                },
            },
            None => placed(tree, e.path, 0, bad_leaf(ErrorView::InvalidValue)),
        },
        ValueView::PathSubstitutionInParent(target) => match target_path(*target) {
            Some(p) => match substituted(tree, full, e.path, e.root, p) {
                Some(NodeView::Array(items, _)) => placed(
                    tree,
                    e.path,
                    0,
                    NodeView::Array(items, None),
                ),
                Some(_) => placed(tree, e.path, 0, bad_array(ErrorView::InvalidValue)),
                None => placed(tree, e.path, 0, bad_array(missing(*target))),
            },
            None => placed(tree, e.path, 0, bad_array(ErrorView::InvalidValue)),
        },
        ValueView::Concat(parts) => match joined_parts(parts, parts.len(), tree, full, e) {
            Ok(t) => placed(tree, e.path, 0, NodeView::Leaf(ValueView::String(t))),
            Err(err) => placed(tree, e.path, 0, bad_leaf(err)),
        },
        ValueView::Inclusion { kind, locator, depth, base } => placed(
            tree,
            e.path,
            0,
            bad_leaf(ErrorView::Include { path: locator }),
        ),
        other => placed(tree, e.path, 0, leaf_for(other)),
    }
}

/// The tree of one round: the first `count` entries of `d` written, in
/// order, into the empty object.
pub open spec fn folded_entries(d: Seq<EntryView>, full: Option<NodeView>, count: nat) -> NodeView
    decreases count,
{
    if count == 0 || count > d.len() {
        empty_hash()
    } else {
        applied(folded_entries(d, full, (count - 1) as nat), full, d[count - 1])
    }
}

/// The tree after the given number of rounds beyond the first.
pub open spec fn after_rounds(d: Seq<EntryView>, rounds: nat) -> NodeView
    decreases rounds,
{
    if rounds == 0 {
        folded_entries(d, None, d.len())
    } else {
        folded_entries(d, Some(after_rounds(d, (rounds - 1) as nat)), d.len())
    }
}

/// Whether a value holds a substitution.
pub open spec fn holds_substitution(v: ValueView) -> bool {
    v is PathSubstitution || v is PathSubstitutionInParent || v is Concat
}

/// How many of the first `count` entries of `d` hold a substitution.
pub open spec fn substitution_count(d: Seq<EntryView>, count: nat) -> nat
    decreases count,
{
    if count == 0 || count > d.len() {
        0
    } else {
        substitution_count(d, (count - 1) as nat) + if holds_substitution(d[count - 1].value) {
            1nat
        } else {
            0nat
        }
    }
}

/// The tree that a document resolves to: the tree after as many rounds
/// beyond the first as it has entries with a substitution.
pub open spec fn resolved(d: Seq<EntryView>) -> NodeView {
    after_rounds(d, substitution_count(d, d.len()))
}

/// The path that the target of a substitution names.
pub fn target_of(expr: &Value) -> (r: Option<Vec<PathItem>>)
    ensures
        optional_path_view(r) == target_path(expr@),
{
    match expr {
        Value::UnquotedString(t) => Some(split_key(t, false)),
        Value::String(t) => Some(split_key(t, true)),
        _ => None,
    }
}

/// The error for a substitution whose target has no value.
pub fn missing_key(expr: &Value) -> (r: Error)
    ensures
        r@ == missing(expr@),
{
    let key = match text_of(expr) {
        Some(t) => t,
        None => Vec::new(),
    };
    Error::KeyNotFound { key: string_of(&key) }
}

/// Looks up `path` for a substitution in the entry at `entry`.
pub fn find(tree: &Node, full: &Option<Node>, entry: &Vec<PathItem>, path: &Vec<PathItem>) -> (r:
    Option<Node>)
    ensures
        optional_node(r) == found(tree@, optional_node(*full), path_view(entry@), path_view(path@)),
{
    if path_is_prefix(path, entry) || path_is_prefix(entry, path) {
        lookup(tree, path, 0)
    } else {
        match full {
            Some(f) => lookup(f, path, 0),
            None => None,
        }
    }
}

/// Looks up what a substitution in `e` that names `path` stands for.
pub fn substitute(tree: &Node, full: &Option<Node>, e: &Entry, path: Vec<PathItem>) -> (r: Option<
    Node,
>)
    ensures
        optional_node(r) == substituted(
            tree@,
            optional_node(*full),
            e@.path,
            e@.root,
            path_view(path@),
        ),
{
    if let Some(root) = &e.root {
        let local = join_paths(root, crate::value::copy_path(&path));
        if let Some(node) = find(tree, full, &e.path, &local) {
            return Some(node);
        }
    }
    find(tree, full, &e.path, &path)
}

/// The leaf for a value that was written as it is.
pub fn leaf(v: &Value) -> (r: Node)
    ensures
        r@ == leaf_for(v@),
{
    match v {
        Value::UnquotedString(t) => {
            let word = trim(t);
            let null = vec!['n', 'u', 'l', 'l'];
            assert(null@ =~= seq!['n', 'u', 'l', 'l']);
            if crate::text::same_chars(&word, &null) {
                Node::Leaf(Value::Null)
            } else {
                Node::Leaf(Value::String(word))
            }
        },
        other => Node::Leaf(other.duplicate()),
    }
}

/// The leaf that stands for a failure.
pub fn bad(e: Error) -> (r: Node)
    ensures
        r@ == bad_leaf(e@),
{
    Node::Leaf(Value::BadValue(e))
}

/// The result of joining texts as a mathematical value.
pub open spec fn text_result_view(r: Result<Vec<char>, Error>) -> Result<Seq<char>, ErrorView> {
    match r {
        Ok(t) => Ok(t@),
        Err(e) => Err(e@),
    }
}

/// The text of one of the values written side by side.
pub fn part(v: &Value, first: bool, last: bool, tree: &Node, full: &Option<Node>, e: &Entry) -> (r:
    Result<Vec<char>, Error>)
    ensures
        text_result_view(r) == part_text(v@, first, last, tree@, optional_node(*full), e@),
{
    match v {
        Value::UnquotedString(t) => {
            let from: usize = if first {
                skip_leading(t, 0, t.len())
            } else {
                0
            };
            let to: usize = if last {
                skip_trailing(t, from, t.len())
            } else {
                t.len()
            };
            Ok(copy_range(t, from, to))
        },
        Value::PathSubstitution { target, optional, original } => {
            let path = match target_of(&**target) {
                Some(p) => p,
                None => {
                    return Err(Error::InvalidValue);
                },
            };
            match substitute(tree, full, e, path) {
                Some(Node::Leaf(Value::BadValue(err))) => Err(err),
                Some(Node::Leaf(v)) => match text_of(&v) {
                    Some(t) => Ok(t),
                    None => Err(Error::InvalidValue),
                },
                Some(_) => Err(Error::InvalidValue),
                None => {
                    if *optional {
                        Ok(Vec::new())
                    } else {
                        Err(missing_key(&**target))
                    }
                },
            }
        },
        other => match text_of(other) {
            Some(t) => Ok(t),
            None => Err(Error::InvalidValue),
        },
    }
}

/// Joins the texts of values written side by side.
pub fn join_parts(parts: &Vec<Value>, tree: &Node, full: &Option<Node>, e: &Entry) -> (r: Result<
    Vec<char>,
    Error,
>)
    ensures
        text_result_view(r) == joined_parts(
            crate::value::values_view(parts@),
            parts@.len(),
            tree@,
            optional_node(*full),
            e@,
        ),
{
    let mut out: Vec<char> = Vec::new();
    let mut i: usize = 0;
    let ghost views = crate::value::values_view(parts@);
    while i < parts.len()
        invariant
            i <= parts.len(),
            views == crate::value::values_view(parts@),
            joined_parts(views, i as nat, tree@, optional_node(*full), e@) == Ok::<
                Seq<char>,
                ErrorView,
            >(out@),
        decreases parts.len() - i,
    {
        match part(&parts[i], i == 0, i + 1 == parts.len(), tree, full, e) {
            Ok(t) => {
                push_chars(&mut out, &t);
            },
            Err(err) => {
                proof {
                    lemma_joined_parts_fail(
                        views,
                        (i + 1) as nat,
                        parts@.len(),
                        tree@,
                        optional_node(*full),
                        e@,
                    );
                }
                return Err(err);
            },
        }
        i += 1;
    }
    Ok(out)
}

/// Once the joining of values has failed, it stays failed with the same
/// error whatever follows.
pub proof fn lemma_joined_parts_fail(
    parts: Seq<ValueView>,
    at: nat,
    count: nat,
    tree: NodeView,
    full: Option<NodeView>,
    e: EntryView,
)
    requires
        at <= count <= parts.len(),
        joined_parts(parts, at, tree, full, e) is Err,
    ensures
        joined_parts(parts, count, tree, full, e) == joined_parts(parts, at, tree, full, e),
    decreases count - at,
{
    if at < count {
        lemma_joined_parts_fail(parts, at, (count - 1) as nat, tree, full, e);
    }
}

/// Writes the entry `e` into `tree`.
pub fn apply(tree: Node, full: &Option<Node>, e: &Entry) -> (r: Node)
    ensures
        r@ == applied(tree@, optional_node(*full), e@),
{
    match &e.value {
        Value::EmptyObject => {
            let fresh: Vec<(Vec<char>, Node)> = Vec::new();
            proof {
                lemma_hash_view(fresh);
                assert(members_view(fresh@) =~= Seq::empty());
            }
            place(tree, &e.path, 0, Node::Hash(fresh))
        },
        Value::EmptyArray => {
            let fresh: Vec<Node> = Vec::new();
            proof {
                lemma_array_view(fresh, None);
                assert(nodes_view(fresh@) =~= Seq::empty());
            }
            place(tree, &e.path, 0, Node::Array(fresh, None))
        },
        Value::PathSubstitution { target, optional, original } => {
            match target_of(&**target) {
                Some(p) => match substitute(&tree, full, e, p) {
                    Some(node) => place(tree, &e.path, 0, node),
                    None => {
                        if *optional {
                            tree
                        } else {
                            place(tree, &e.path, 0, bad(missing_key(&**target)))
                        }
                    },
                },
                None => place(tree, &e.path, 0, bad(Error::InvalidValue)),
            }
        },
        Value::PathSubstitutionInParent(target) => {
            let found = match target_of(&**target) {
                Some(p) => match substitute(&tree, full, e, p) {
                    Some(Node::Array(items, last)) => {
                        proof {
                            lemma_array_view(items, last);
                        }
                        Ok(items)
                    },
                    Some(_) => Err(Error::InvalidValue),
                    None => Err(missing_key(&**target)),
                },
                None => Err(Error::InvalidValue),
            };
            let items = match found {
                Ok(items) => items,
                Err(err) => {
                    let mut items: Vec<Node> = Vec::new();
                    items.push(bad(err));
                    assert(nodes_view(items@) =~= seq![bad_leaf(err@)]);
                    items
                },
            };
            proof {
                lemma_array_view(items, None);
            }
            place(tree, &e.path, 0, Node::Array(items, None))
        },
        Value::Concat(parts) => {
            proof {
                crate::value::lemma_concat_view(*parts);
            }
            match join_parts(parts, &tree, full, e) {
                Ok(t) => place(tree, &e.path, 0, Node::Leaf(Value::String(t))),
                Err(err) => place(tree, &e.path, 0, bad(err)),
            }
        },
        Value::Inclusion { kind, locator, depth, base } => place(
            tree,
            &e.path,
            0,
            bad(Error::Include { path: string_of(locator) }),
        ),
        other => place(tree, &e.path, 0, leaf(other)),
    }
}

/// Folds the entries of `doc` into the tree of one round.
pub fn fold(doc: &Document, full: &Option<Node>) -> (r: Node)
    ensures
        r@ == folded_entries(doc@, optional_node(*full), doc@.len()),
{
    let fresh: Vec<(Vec<char>, Node)> = Vec::new();
    proof {
        lemma_hash_view(fresh);
        assert(members_view(fresh@) =~= Seq::empty());
    }
    let mut tree = Node::Hash(fresh);
    let mut i: usize = 0;
    while i < doc.entries.len()
        invariant
            i <= doc.entries.len(),
            tree@ == folded_entries(doc@, optional_node(*full), i as nat),
        decreases doc.entries.len() - i,
    {
        tree = apply(tree, full, &doc.entries[i]);
        i += 1;
    }
    tree
}

/// Whether a value holds a substitution.
pub fn has_substitution(v: &Value) -> (r: bool)
    ensures
        r == holds_substitution(v@),
{
    match v {
        Value::PathSubstitution { .. } => true,
        Value::PathSubstitutionInParent(_) => true,
        Value::Concat(_) => true,
        _ => false,
    }
}

/// Counts the entries of `doc` that hold a substitution.
pub fn count_substitutions(doc: &Document) -> (r: usize)
    ensures
        r == substitution_count(doc@, doc@.len()),
{
    let mut n: usize = 0;
    let mut i: usize = 0;
    while i < doc.entries.len()
        invariant
            i <= doc.entries.len(),
            n <= i,
            n == substitution_count(doc@, i as nat),
        decreases doc.entries.len() - i,
    {
        if has_substitution(&doc.entries[i].value) {
            n += 1;
        }
        i += 1;
    }
    n
}

/// Resolves a document to a tree.
pub fn resolve(doc: &Document) -> (r: Node)
    ensures
        r@ == resolved(doc@),
{
    let rounds = count_substitutions(doc);
    let mut tree = fold(doc, &None);
    let mut done: usize = 0;
    while done < rounds
        invariant
            done <= rounds,
            tree@ == after_rounds(doc@, done as nat),
        decreases rounds - done,
    {
        let full = Some(tree);
        tree = fold(doc, &full);
        done += 1;
    }
    tree
}

} // verus!
