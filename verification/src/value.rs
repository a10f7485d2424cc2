//! The values and paths that a parsed document is made of.

use crate::error::{Error, ErrorView};
use crate::text::{copy_chars, same_chars};
use vstd::prelude::*;

verus! {

/// Names one use of the append operator. Two uses never share an id: the
/// tag tells documents apart, the offset the operators within a document.
#[derive(Debug, PartialEq, Eq)]
pub struct OperationId {
    pub tag: Vec<char>,
    pub offset: usize,
}

/// An `OperationId` as a mathematical value.
pub struct OperationIdView {
    pub tag: Seq<char>,
    pub offset: int,
}

impl View for OperationId {
    type V = OperationIdView;

    open spec fn view(&self) -> OperationIdView {
        OperationIdView { tag: self.tag@, offset: self.offset as int }
    }
}

impl OperationId {
    /// A copy of the id.
    pub fn duplicate(&self) -> (r: OperationId)
        ensures
            r@ == self@,
    {
        OperationId { tag: copy_chars(&self.tag), offset: self.offset }
    }

    /// Whether two ids are the same.
    pub fn same(&self, other: &OperationId) -> (r: bool)
        ensures
            r == (self@ == other@),
    {
        self.offset == other.offset && same_chars(&self.tag, &other.tag)
    }
}

/// One step of a path.
#[derive(Debug, PartialEq, Eq)]
pub enum PathItem {
    /// The member of an object that has this name.
    Key(Vec<char>),
    /// The element of an array literal that stands at this place in it.
    Index(usize),
    /// The element that one use of the append operator adds to an array.
    Append(OperationId),
}

/// A `PathItem` as a mathematical value.
pub enum PathItemView {
    Key(Seq<char>),
    Index(int),
    Append(OperationIdView),
}

impl View for PathItem {
    type V = PathItemView;

    open spec fn view(&self) -> PathItemView {
        match self {
            PathItem::Key(k) => PathItemView::Key(k@),
            PathItem::Index(i) => PathItemView::Index(*i as int),
            PathItem::Append(id) => PathItemView::Append(id@),
        }
    }
}

impl PathItem {
    /// A copy of the step.
    pub fn duplicate(&self) -> (r: PathItem)
        ensures
            r@ == self@,
    {
        match self {
            PathItem::Key(k) => PathItem::Key(copy_chars(k)),
            PathItem::Index(i) => PathItem::Index(*i),
            PathItem::Append(id) => PathItem::Append(id.duplicate()),
        }
    }

    /// Whether two steps are the same: keys by their characters, case
    /// included, and indices by their number.
    pub fn same(&self, other: &PathItem) -> (r: bool)
        ensures
            r == (self@ == other@),
    {
        match (self, other) {
            (PathItem::Key(a), PathItem::Key(b)) => same_chars(a, b),
            (PathItem::Index(a), PathItem::Index(b)) => *a == *b,
            (PathItem::Append(a), PathItem::Append(b)) => a.same(b),
            _ => false,
        }
    }
}

/// A path as a mathematical value: the sequence of its steps.
pub type PathView = Seq<PathItemView>;

/// The steps of `path` as mathematical values.
pub open spec fn path_view(path: Seq<PathItem>) -> PathView {
    Seq::new(path.len(), |i: int| path[i]@)
}

/// A copy of `path`.
pub fn copy_path(path: &Vec<PathItem>) -> (r: Vec<PathItem>)
    ensures
        path_view(r@) == path_view(path@),
{
    let mut out: Vec<PathItem> = Vec::new();
    let mut i: usize = 0;
    while i < path.len()
        invariant
            i <= path.len(),
            out@.len() == i,
            forall|k: int| 0 <= k < i ==> out@[k]@ == path@[k]@,
        decreases path.len() - i,
    {
        out.push(path[i].duplicate());
        i += 1;
    }
    assert(path_view(out@) =~= path_view(path@));
    out
}

/// `head` followed by `tail`.
pub fn join_paths(head: &Vec<PathItem>, tail: Vec<PathItem>) -> (r: Vec<PathItem>)
    ensures
        path_view(r@) == path_view(head@) + path_view(tail@),
{
    let mut out = copy_path(head);
    let mut tail = tail;
    let ghost before = out@;
    let ghost rest = tail@;
    out.append(&mut tail);
    assert(path_view(out@) =~= path_view(before) + path_view(rest));
    out
}

/// Which kind of source a document names when it brings in another.
#[derive(Clone, Copy, Debug, PartialEq, Eq)]
pub enum SourceKind {
    /// A file, named relative to the document that names it.
    File,
    /// A URL.
    Url,
}

/// A value as the grammar yields it.
#[derive(Debug, PartialEq, Eq)]
pub enum Value {
    Null,
    Boolean(bool),
    Integer(i64),
    /// A number that is no 64-bit integer, as it was written.
    Real(Vec<char>),
    String(Vec<char>),
    /// An unquoted word, not yet told apart from `null`.
    UnquotedString(Vec<char>),
    /// A reference to the value at another path of the document.
    PathSubstitution { target: Box<Value>, optional: bool, original: Option<Vec<char>> },
    /// A reference to an array whose elements begin the array it stands in.
    PathSubstitutionInParent(Box<Value>),
    /// Values written side by side, to be joined to one string.
    Concat(Vec<Value>),
    /// An object without members.
    EmptyObject,
    /// An array without elements: every array literal begins with one.
    EmptyArray,
    /// Another document, to be brought in at this place. `depth` tells how
    /// deeply the document that asks is itself nested in others, and `base`
    /// is the directory of its file, if it came from one.
    Inclusion { kind: SourceKind, locator: Vec<char>, depth: u8, base: Option<Vec<char>> },
    /// What stands for a value that could not be had.
    BadValue(Error),
}

/// A `Value` as a mathematical value.
pub enum ValueView {
    Null,
    Boolean(bool),
    Integer(i64),
    Real(Seq<char>),
    String(Seq<char>),
    UnquotedString(Seq<char>),
    PathSubstitution { target: Box<ValueView>, optional: bool, original: Option<Seq<char>> },
    PathSubstitutionInParent(Box<ValueView>),
    Concat(Seq<ValueView>),
    EmptyObject,
    EmptyArray,
    Inclusion { kind: SourceKind, locator: Seq<char>, depth: u8, base: Option<Seq<char>> },
    BadValue(ErrorView),
}

/// The characters of an optional text.
pub open spec fn optional_text(t: Option<Vec<char>>) -> Option<Seq<char>> {
    match t {
        Some(t) => Some(t@),
        None => None,
    }
}

/// The mathematical value of `v`.
pub open spec fn value_view(v: Value) -> ValueView
    decreases v,
{
    match v {
        Value::Null => ValueView::Null,
        Value::Boolean(b) => ValueView::Boolean(b),
        Value::Integer(i) => ValueView::Integer(i),
        Value::Real(t) => ValueView::Real(t@),
        Value::String(t) => ValueView::String(t@),
        Value::UnquotedString(t) => ValueView::UnquotedString(t@),
        Value::PathSubstitution { target, optional, original } => ValueView::PathSubstitution {
            target: Box::new(value_view(*target)),
            optional,
            original: optional_text(original),
        },
        Value::PathSubstitutionInParent(target) => ValueView::PathSubstitutionInParent(
            Box::new(value_view(*target)),
        ),
        Value::Concat(parts) => ValueView::Concat(
            Seq::new(
                parts@.len(),
                |i: int|
                    if 0 <= i < parts@.len() {
                        value_view(parts@[i])
                    } else {
                        ValueView::Null
                    },
            ),
        ),
        Value::EmptyObject => ValueView::EmptyObject,
        Value::EmptyArray => ValueView::EmptyArray,
        Value::Inclusion { kind, locator, depth, base } => ValueView::Inclusion {
            kind,
            locator: locator@,
            depth,
            base: optional_text(base),
        },
        Value::BadValue(e) => ValueView::BadValue(e@),
    }
}

impl View for Value {
    type V = ValueView;

    open spec fn view(&self) -> ValueView {
        value_view(*self)
    }
}

/// The values of `values` as mathematical values.
pub open spec fn values_view(values: Seq<Value>) -> Seq<ValueView> {
    Seq::new(values.len(), |i: int| values[i]@)
}

/// The view of a concatenation is the concatenation of the views.
pub proof fn lemma_concat_view(parts: Vec<Value>)
    ensures
        Value::Concat(parts)@ == ValueView::Concat(values_view(parts@)),
{
    let s = value_view(Value::Concat(parts))->Concat_0;
    assert(s.len() == parts@.len());
    assert(s =~= values_view(parts@));
}

impl Value {
    /// A copy of the value.
    pub fn duplicate(&self) -> (r: Value)
        ensures
            r@ == self@,
        decreases self,
    {
        match self {
            Value::Null => Value::Null,
            Value::Boolean(b) => Value::Boolean(*b),
            Value::Integer(i) => Value::Integer(*i),
            Value::Real(t) => Value::Real(copy_chars(t)),
            Value::String(t) => Value::String(copy_chars(t)),
            Value::UnquotedString(t) => Value::UnquotedString(copy_chars(t)),
            Value::PathSubstitution { target, optional, original } => {
                let original = match original {
                    Some(t) => Some(copy_chars(t)),
                    None => None,
                };
                Value::PathSubstitution {
                    target: Box::new(target.duplicate()),
                    optional: *optional,
                    original,
                }
            },
            Value::PathSubstitutionInParent(target) => Value::PathSubstitutionInParent(
                Box::new(target.duplicate()),
            ),
            Value::Concat(parts) => {
                let mut out: Vec<Value> = Vec::new();
                let mut i: usize = 0;
                while i < parts.len()
                    invariant
                        i <= parts.len(),
                        out@.len() == i,
                        forall|k: int| 0 <= k < i ==> out@[k]@ == parts@[k]@,
                        forall|k: int|
                            0 <= k < parts.len() ==> decreases_to!(self => #[trigger] parts@[k]),
                    decreases parts.len() - i,
                {
                    out.push(parts[i].duplicate());
                    i += 1;
                }
                proof {
                    lemma_concat_view(out);
                    lemma_concat_view(*parts);
                    assert(values_view(out@) =~= values_view(parts@));
                }
                Value::Concat(out)
            },
            Value::EmptyObject => Value::EmptyObject,
            Value::EmptyArray => Value::EmptyArray,
            Value::Inclusion { kind, locator, depth, base } => {
                let base = match base {
                    Some(t) => Some(copy_chars(t)),
                    None => None,
                };
                Value::Inclusion { kind: *kind, locator: copy_chars(locator), depth: *depth, base }
            },
            Value::BadValue(e) => Value::BadValue(e.duplicate()),
        }
    }
}

/// One entry of a document: a value and the path at which it stands. An
/// entry that came in with another document also knows the path at which
/// that document was brought in.
#[derive(Debug, PartialEq, Eq)]
pub struct Entry {
    pub path: Vec<PathItem>,
    pub value: Value,
    pub root: Option<Vec<PathItem>>,
}

/// An `Entry` as a mathematical value.
pub struct EntryView {
    pub path: PathView,
    pub value: ValueView,
    pub root: Option<PathView>,
}

/// The steps of an optional path.
pub open spec fn optional_path_view(p: Option<Vec<PathItem>>) -> Option<PathView> {
    match p {
        Some(p) => Some(path_view(p@)),
        None => None,
    }
}

impl View for Entry {
    type V = EntryView;

    open spec fn view(&self) -> EntryView {
        EntryView {
            path: path_view(self.path@),
            value: self.value@,
            root: optional_path_view(self.root),
        }
    }
}

impl Entry {
    /// A copy of the entry.
    pub fn duplicate(&self) -> (r: Entry)
        ensures
            r@ == self@,
    {
        let root = match &self.root {
            Some(p) => Some(copy_path(p)),
            None => None,
        };
        Entry { path: copy_path(&self.path), value: self.value.duplicate(), root }
    }
}

/// The entries of `entries` as mathematical values.
pub open spec fn entries_view(entries: Seq<Entry>) -> Seq<EntryView> {
    Seq::new(entries.len(), |i: int| entries[i]@)
}

} // verus!
