//! A document: the entries of a text in the order in which they were
//! written. Later entries override earlier ones at the same path, so the
//! order is all that decides between them.

use crate::text::copy_chars;
use crate::value::{
    entries_view, join_paths, optional_text, path_view, Entry, EntryView, OperationId,
    OperationIdView, PathItem, PathItemView, PathView, SourceKind, Value, ValueView,
};
use crate::vecs::reverse;
use vstd::prelude::*;

verus! {

/// The entries of a text, in the order in which they were written.
#[derive(Debug, PartialEq, Eq)]
pub struct Document {
    pub entries: Vec<Entry>,
}

impl View for Document {
    type V = Seq<EntryView>;

    open spec fn view(&self) -> Seq<EntryView> {
        entries_view(self.entries@)
    }
}

/// The entry that stands for a document still to be brought in.
pub open spec fn inclusion_entry(kind: SourceKind, locator: Seq<char>) -> EntryView {
    root_entry(ValueView::Inclusion { kind, locator, depth: 0, base: None })
}

/// A step with `tag` put into the id of an append operator.
pub open spec fn stamped_item(item: PathItemView, tag: Seq<char>) -> PathItemView {
    match item {
        PathItemView::Append(id) => PathItemView::Append(
            OperationIdView { tag, offset: id.offset },
        ),
        other => other,
    }
}

/// A path with `tag` put into the ids of its append operators.
pub open spec fn stamped_path(path: PathView, tag: Seq<char>) -> PathView {
    Seq::new(path.len(), |i: int| stamped_item(path[i], tag))
}

/// A value with the depth and directory of its document put into it, if it
/// asks for another document.
pub open spec fn stamped_value(v: ValueView, depth: u8, base: Option<Seq<char>>) -> ValueView {
    match v {
        ValueView::Inclusion { kind, locator, depth: _, base: _ } => ValueView::Inclusion {
            kind,
            locator,
            depth,
            base,
        },
        other => other,
    }
}

/// An entry marked as one of the document with the given tag, depth and
/// directory.
pub open spec fn stamped_entry(e: EntryView, tag: Seq<char>, depth: u8, base: Option<Seq<char>>) -> EntryView {
    EntryView {
        path: stamped_path(e.path, tag),
        value: stamped_value(e.value, depth, base),
        root: e.root,
    }
}

/// Entries marked as those of the document with the given tag, depth and
/// directory.
pub open spec fn stamped(d: Seq<EntryView>, tag: Seq<char>, depth: u8, base: Option<Seq<char>>) -> Seq<
    EntryView,
> {
    Seq::new(d.len(), |i: int| stamped_entry(d[i], tag, depth, base))
}

/// The entry for `value` at the root, as a mathematical value.
pub open spec fn root_entry(value: ValueView) -> EntryView {
    EntryView { path: Seq::empty(), value, root: None }
}

/// An optional path with `prefix` put before it.
pub open spec fn prefixed_root(prefix: PathView, root: Option<PathView>) -> Option<PathView> {
    match root {
        Some(r) => Some(prefix + r),
        None => None,
    }
}

/// The entry `e` with `prefix` put before its path.
pub open spec fn prefixed_entry(prefix: PathView, e: EntryView) -> EntryView {
    EntryView { path: prefix + e.path, value: e.value, root: prefixed_root(prefix, e.root) }
}

/// The entries `d`, each with `prefix` put before its path.
pub open spec fn prefixed(prefix: PathView, d: Seq<EntryView>) -> Seq<EntryView> {
    Seq::new(d.len(), |i: int| prefixed_entry(prefix, d[i]))
}

/// The entries of an object whose members give the entries `d`: those
/// entries, or the entry for an empty object where there are none.
pub open spec fn object_entries(d: Seq<EntryView>) -> Seq<EntryView> {
    if d.len() == 0 {
        seq![root_entry(ValueView::EmptyObject)]
    } else {
        d
    }
}

/// The entries of the elements `items[from..]` of an array literal, each
/// under the index of its element.
pub open spec fn element_entries(items: Seq<Seq<EntryView>>, from: int) -> Seq<EntryView>
    decreases items.len() - from,
{
    if from < 0 || from >= items.len() {
        Seq::empty()
    } else {
        prefixed(seq![PathItemView::Index(from)], items[from]) + element_entries(items, from + 1)
    }
}

/// The entries of an array literal whose elements give the entries
/// `items`: the entry that begins an array, then those of the elements.
pub open spec fn array_entries(items: Seq<Seq<EntryView>>) -> Seq<EntryView> {
    seq![root_entry(ValueView::EmptyArray)] + element_entries(items, 0)
}

/// The documents of `items` as mathematical values.
pub open spec fn documents_view(items: Seq<Document>) -> Seq<Seq<EntryView>> {
    Seq::new(items.len(), |i: int| items[i]@)
}

impl Document {
    /// The document without entries.
    pub fn empty() -> (r: Document)
        ensures
            r@ == Seq::<EntryView>::empty(),
    {
        let r = Document { entries: Vec::new() };
        assert(r@ =~= Seq::<EntryView>::empty());
        r
    }

    /// The entries of `self` followed by those of `other`.
    pub fn add(self, other: Document) -> (r: Document)
        ensures
            r@ == self@ + other@,
    {
        let mut entries = self.entries;
        let mut tail = other.entries;
        let ghost a = entries@;
        let ghost b = tail@;
        entries.append(&mut tail);
        let r = Document { entries };
        assert(r@ =~= entries_view(a) + entries_view(b));
        r
    }

    /// The document of a single value.
    pub fn from_value(value: Value) -> (r: Document)
        ensures
            r@ == seq![root_entry(value@)],
    {
        let mut entries: Vec<Entry> = Vec::new();
        entries.push(Entry { path: Vec::new(), value, root: None });
        let r = Document { entries };
        assert(r.entries@[0]@.path =~= Seq::empty());
        assert(r@ =~= seq![root_entry(value@)]);
        r
    }

    /// The document of an object whose members gave the entries `members`.
    pub fn from_object(members: Document) -> (r: Document)
        ensures
            r@ == object_entries(members@),
    {
        if members.entries.len() == 0 {
            Document::from_value(Value::EmptyObject)
        } else {
            members
        }
    }

    /// The document that asks for another document to be brought in.
    pub fn from_include(kind: SourceKind, locator: Vec<char>) -> (r: Document)
        ensures
            r@ == seq![inclusion_entry(kind, locator@)],
    {
        Document::from_value(Value::Inclusion { kind, locator, depth: 0, base: None })
    }

    /// Marks the entries as those of one document: every append operator
    /// gets `tag` into its id, and every request for another document gets
    /// the depth and the directory of this one.
    pub fn stamp(self, tag: &Vec<char>, depth: u8, base: &Option<Vec<char>>) -> (r: Document)
        ensures
            r@ == stamped(self@, tag@, depth, optional_text(*base)),
    {
        let mut entries = self.entries;
        let mut out: Vec<Entry> = Vec::new();
        let ghost all = entries@;
        let mut taken: usize = 0;
        let total = entries.len();
        while entries.len() > 0
            invariant
                taken + entries.len() == total,
                total == all.len(),
                entries@ == all.subrange(0, entries@.len() as int),
                out@.len() == taken,
                forall|k: int|
                    0 <= k < taken ==> (#[trigger] out@[k])@ == stamped_entry(
                        all[total - 1 - k]@,
                        tag@,
                        depth,
                        optional_text(*base),
                    ),
            decreases entries.len(),
        {
            let e = entries.pop().unwrap();
            assert(e == all[total - 1 - taken]);
            assert(entries@ =~= all.subrange(0, entries@.len() as int));
            let value = match e.value {
                Value::Inclusion { kind, locator, depth: _, base: _ } => {
                    let base = match base {
                        Some(t) => Some(copy_chars(t)),
                        None => None,
                    };
                    Value::Inclusion { kind, locator, depth, base }
                },
                other => other,
            };
            out.push(Entry { path: stamp_path(e.path, tag), value, root: e.root });
            taken += 1;
        }
        let r = Document { entries: reverse(out) };
        assert(r@ =~= stamped(entries_view(all), tag@, depth, optional_text(*base)));
        r
    }

    /// Every entry with `prefix` put before its path.
    pub fn add_to_path(self, prefix: &Vec<PathItem>) -> (r: Document)
        ensures
            r@ == prefixed(path_view(prefix@), self@),
    {
        let mut entries = self.entries;
        let mut out: Vec<Entry> = Vec::new();
        let ghost all = entries@;
        let mut taken: usize = 0;
        let total = entries.len();
        while entries.len() > 0
            invariant
                taken + entries.len() == total,
                total == all.len(),
                entries@ == all.subrange(0, entries@.len() as int),
                out@.len() == taken,
                forall|k: int|
                    0 <= k < taken ==> (#[trigger] out@[k])@ == prefixed_entry(
                        path_view(prefix@),
                        all[total - 1 - k]@,
                    ),
            decreases entries.len(),
        {
            let ghost before = entries@;
            let e = entries.pop().unwrap();
            assert(e == all[total - 1 - taken]);
            assert(entries@ =~= all.subrange(0, entries@.len() as int));
            let root = match e.root {
                Some(r) => Some(join_paths(prefix, r)),
                None => None,
            };
            out.push(Entry { path: join_paths(prefix, e.path), value: e.value, root });
            taken += 1;
        }
        let r = Document { entries: reverse(out) };
        assert(r@ =~= prefixed(path_view(prefix@), entries_view(all)));
        r
    }

    /// The entries of the elements of an array literal, each under the
    /// index of its element.
    pub fn elements(items: Vec<Document>) -> (r: Document)
        ensures
            r@ == element_entries(documents_view(items@), 0),
    {
        let mut items = items;
        let ghost all = documents_view(items@);
        let mut tail = Document::empty();
        while items.len() > 0
            invariant
                documents_view(items@) == all.subrange(0, items@.len() as int),
                items@.len() <= all.len(),
                tail@ == element_entries(all, items@.len() as int),
            decreases items.len(),
        {
            let ghost before = items@;
            let item = items.pop().unwrap();
            let index = items.len();
            assert(item@ == documents_view(before)[index as int]);
            assert(documents_view(items@) =~= all.subrange(0, items@.len() as int));
            let mut prefix: Vec<PathItem> = Vec::new();
            prefix.push(PathItem::Index(index));
            assert(path_view(prefix@) =~= seq![PathItemView::Index(index as int)]);
            tail = item.add_to_path(&prefix).add(tail);
        }
        tail
    }

    /// The document of an array literal whose elements gave the documents
    /// `items`.
    pub fn from_array(items: Vec<Document>) -> (r: Document)
        ensures
            r@ == array_entries(documents_view(items@)),
    {
        Document::from_value(Value::EmptyArray).add(Document::elements(items))
    }

    /// The entries of a value that the append operator with the given id
    /// adds to the array at `key`: every entry is tagged with the id, as
    /// the last step of the path to the array.
    pub fn tag_append(self, key: Vec<PathItem>, id: OperationId) -> (r: Document)
        ensures
            r@ == prefixed(path_view(key@).push(PathItemView::Append(id@)), self@),
    {
        let mut path = key;
        let ghost before = path_view(path@);
        path.push(PathItem::Append(id));
        assert(path_view(path@) =~= before.push(PathItemView::Append(id@)));
        self.add_to_path(&path)
    }
}

/// Puts `tag` into the ids of the append operators of `path`.
pub fn stamp_path(path: Vec<PathItem>, tag: &Vec<char>) -> (r: Vec<PathItem>)
    ensures
        path_view(r@) == stamped_path(path_view(path@), tag@),
{
    let mut out: Vec<PathItem> = Vec::new();
    let mut i: usize = 0;
    while i < path.len()
        invariant
            i <= path.len(),
            out@.len() == i,
            forall|k: int| 0 <= k < i ==> (#[trigger] out@[k])@ == stamped_item(path@[k]@, tag@),
        decreases path.len() - i,
    {
        let item = match &path[i] {
            PathItem::Append(id) => PathItem::Append(
                OperationId { tag: copy_chars(tag), offset: id.offset },
            ),
            other => other.duplicate(),
        };
        out.push(item);
        i += 1;
    }
    assert(path_view(out@) =~= stamped_path(path_view(path@), tag@));
    out
}

} // verus!
