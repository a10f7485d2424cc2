//! The value tree that a document is loaded into, and the projection of a
//! resolved tree onto it.

use crate::document::Document;
use crate::error::{Error, ErrorView};
use crate::resolve::{resolve, resolved};
use crate::text::string_of;
use crate::tree::{lemma_array_view, lemma_hash_view, members_view, nodes_view, Node, NodeView};
use crate::value::{EntryView, Value, ValueView};
use vstd::prelude::*;

verus! {

/// A loaded value.
#[derive(Debug, PartialEq, Eq)]
pub enum Hocon {
    /// A number that is no 64-bit integer, as it was written.
    Real(String),
    Integer(i64),
    String(String),
    Boolean(bool),
    Array(Vec<Hocon>),
    /// An object: its members in the order in which their names were first
    /// written.
    Hash(Vec<(String, Hocon)>),
    Null,
    /// What stands for a value that could not be had, with the reason.
    BadValue(Error),
}

/// A `Hocon` as a mathematical value.
pub enum HoconView {
    Real(Seq<char>),
    Integer(i64),
    String(Seq<char>),
    Boolean(bool),
    Array(Seq<HoconView>),
    Hash(Seq<(Seq<char>, HoconView)>),
    Null,
    BadValue(ErrorView),
}

/// The mathematical value of `h`.
pub open spec fn hocon_view(h: Hocon) -> HoconView
    decreases h,
{
    match h {
        Hocon::Real(t) => HoconView::Real(t@),
        Hocon::Integer(i) => HoconView::Integer(i),
        Hocon::String(t) => HoconView::String(t@),
        Hocon::Boolean(b) => HoconView::Boolean(b),
        Hocon::Array(items) => HoconView::Array(
            Seq::new(
                items@.len(),
                |i: int|
                    if 0 <= i < items@.len() {
                        hocon_view(items@[i])
                    } else {
                        HoconView::Null
                    },
            ),
        ),
        Hocon::Hash(members) => HoconView::Hash(
            Seq::new(
                members@.len(),
                |i: int|
                    if 0 <= i < members@.len() {
                        (members@[i].0@, hocon_view(members@[i].1))
                    } else {
                        (Seq::empty(), HoconView::Null)
                    },
            ),
        ),
        Hocon::Null => HoconView::Null,
        Hocon::BadValue(e) => HoconView::BadValue(e@),
    }
}

impl View for Hocon {
    type V = HoconView;

    open spec fn view(&self) -> HoconView {
        hocon_view(*self)
    }
}

/// The values of `items` as mathematical values.
pub open spec fn hocons_view(items: Seq<Hocon>) -> Seq<HoconView> {
    Seq::new(items.len(), |i: int| items[i]@)
}

/// The members of `members` as mathematical values.
pub open spec fn hocon_members_view(members: Seq<(String, Hocon)>) -> Seq<(Seq<char>, HoconView)> {
    Seq::new(members.len(), |i: int| (members[i].0@, members[i].1@))
}

/// The view of an array is made of the views of its elements.
pub proof fn lemma_hocon_array_view(items: Vec<Hocon>)
    ensures
        Hocon::Array(items)@ == HoconView::Array(hocons_view(items@)),
{
    let s = hocon_view(Hocon::Array(items))->Array_0;
    assert(s.len() == items@.len());
    assert(s =~= hocons_view(items@));
}

/// The view of an object is made of the views of its members.
pub proof fn lemma_hocon_hash_view(members: Vec<(String, Hocon)>)
    ensures
        Hocon::Hash(members)@ == HoconView::Hash(hocon_members_view(members@)),
{
    let s = hocon_view(Hocon::Hash(members))->Hash_0;
    assert(s.len() == members@.len());
    assert(s =~= hocon_members_view(members@));
}

/// The loaded value for a leaf of a resolved tree. Null, booleans,
/// integers, other numbers and strings are what they are; a failure stays
/// one; anything else should have been resolved, and is a failure.
pub open spec fn projected_leaf(v: ValueView) -> HoconView {
    match v {
        ValueView::Null => HoconView::Null,
        ValueView::Boolean(b) => HoconView::Boolean(b),
        ValueView::Integer(i) => HoconView::Integer(i),
        ValueView::Real(t) => HoconView::Real(t),
        ValueView::String(t) => HoconView::String(t),
        ValueView::BadValue(e) => HoconView::BadValue(e),
        _ => HoconView::BadValue(ErrorView::InvalidValue),
    }
}

/// The loaded value for a resolved tree: objects become objects with the
/// same members in the same order, arrays become arrays with the same
/// elements in the same order, and leaves become scalars.
pub open spec fn projected(n: NodeView) -> HoconView
    decreases n,
{
    match n {
        NodeView::Leaf(v) => projected_leaf(v),
        NodeView::Hash(members) => HoconView::Hash(
            Seq::new(
                members.len(),
                |i: int|
                    if 0 <= i < members.len() {
                        (members[i].0, projected(members[i].1))
                    } else {
                        (Seq::empty(), HoconView::Null)
                    },
            ),
        ),
        NodeView::Array(items, _) => HoconView::Array(
            Seq::new(
                items.len(),
                |i: int|
                    if 0 <= i < items.len() {
                        projected(items[i])
                    } else {
                        HoconView::Null
                    },
            ),
        ),
    }
}

/// The first failure in a tree, reading objects and arrays from their
/// first member or element to their last.
pub open spec fn first_failure(n: NodeView) -> Option<ErrorView>
    decreases n, 0nat,
{
    match n {
        NodeView::Leaf(ValueView::BadValue(e)) => Some(e),
        NodeView::Leaf(_) => None,
        NodeView::Hash(members) => first_failure_in_members(members, 0),
        NodeView::Array(items, _) => first_failure_in_items(items, 0),
    }
}

/// The first failure among `members[from..]`.
pub open spec fn first_failure_in_members(members: Seq<(Seq<char>, NodeView)>, from: nat) -> Option<
    ErrorView,
>
    decreases members, members.len() - from,
{
    if from >= members.len() {
        None
    } else if first_failure(members[from as int].1) is Some {
        first_failure(members[from as int].1)
    } else {
        first_failure_in_members(members, from + 1)
    }
}

/// The first failure among `items[from..]`.
pub open spec fn first_failure_in_items(items: Seq<NodeView>, from: nat) -> Option<ErrorView>
    decreases items, items.len() - from,
{
    if from >= items.len() {
        None
    } else if first_failure(items[from as int]) is Some {
        first_failure(items[from as int])
    } else {
        first_failure_in_items(items, from + 1)
    }
}

/// An optional error as a mathematical value.
pub open spec fn optional_error(e: Option<Error>) -> Option<ErrorView> {
    match e {
        Some(e) => Some(e@),
        None => None,
    }
}

/// The loaded value for a leaf of a resolved tree.
pub fn project_leaf(v: &Value) -> (r: Hocon)
    ensures
        r@ == projected_leaf(v@),
{
    match v {
        Value::Null => Hocon::Null,
        Value::Boolean(b) => Hocon::Boolean(*b),
        Value::Integer(i) => Hocon::Integer(*i),
        Value::Real(t) => Hocon::Real(string_of(t)),
        Value::String(t) => Hocon::String(string_of(t)),
        Value::BadValue(e) => Hocon::BadValue(e.duplicate()),
        _ => Hocon::BadValue(Error::InvalidValue),
    }
}

/// Projects a resolved tree onto the value tree.
pub fn project(n: &Node) -> (r: Hocon)
    ensures
        r@ == projected(n@),
    decreases n,
{
    match n {
        Node::Leaf(v) => project_leaf(v),
        Node::Hash(members) => {
            let mut out: Vec<(String, Hocon)> = Vec::new();
            let mut i: usize = 0;
            while i < members.len()
                invariant
                    i <= members.len(),
                    out@.len() == i,
                    forall|k: int|
                        0 <= k < i ==> (#[trigger] out@[k]).0@ == members@[k].0@ && out@[k].1@
                            == projected(members@[k].1@),
                    forall|k: int|
                        0 <= k < members.len() ==> decreases_to!(n => (#[trigger] members@[k]).1),
                decreases members.len() - i,
            {
                out.push((string_of(&members[i].0), project(&members[i].1)));
                i += 1;
            }
            proof {
                lemma_hash_view(*members);
                lemma_hocon_hash_view(out);
                assert(hocon_members_view(out@) =~= projected(n@)->Hash_0);
            }
            Hocon::Hash(out)
        },
        Node::Array(items, last) => {
            let mut out: Vec<Hocon> = Vec::new();
            let mut i: usize = 0;
            while i < items.len()
                invariant
                    i <= items.len(),
                    out@.len() == i,
                    forall|k: int| 0 <= k < i ==> (#[trigger] out@[k])@ == projected(items@[k]@),
                    forall|k: int|
                        0 <= k < items.len() ==> decreases_to!(n => #[trigger] items@[k]),
                decreases items.len() - i,
            {
                out.push(project(&items[i]));
                i += 1;
            }
            proof {
                lemma_array_view(*items, *last);
                lemma_hocon_array_view(out);
                assert(hocons_view(out@) =~= projected(n@)->Array_0);
            }
            Hocon::Array(out)
        },
    }
}

/// Finds the first failure in a tree.
pub fn find_failure(n: &Node) -> (r: Option<Error>)
    ensures
        optional_error(r) == first_failure(n@),
    decreases n,
{
    match n {
        Node::Leaf(Value::BadValue(e)) => Some(e.duplicate()),
        Node::Leaf(_) => None,
        Node::Hash(members) => {
            proof {
                lemma_hash_view(*members);
            }
            let mut i: usize = 0;
            while i < members.len()
                invariant
                    i <= members.len(),
                    first_failure(n@) == first_failure_in_members(members_view(members@), i as nat),
                    forall|k: int|
                        0 <= k < members.len() ==> decreases_to!(n => (#[trigger] members@[k]).1),
                decreases members.len() - i,
            {
                if let Some(e) = find_failure(&members[i].1) {
                    return Some(e);
                }
                i += 1;
            }
            None
        },
        Node::Array(items, last) => {
            proof {
                lemma_array_view(*items, *last);
            }
            let mut i: usize = 0;
            while i < items.len()
                invariant
                    i <= items.len(),
                    first_failure(n@) == first_failure_in_items(nodes_view(items@), i as nat),
                    forall|k: int|
                        0 <= k < items.len() ==> decreases_to!(n => #[trigger] items@[k]),
                decreases items.len() - i,
            {
                if let Some(e) = find_failure(&items[i]) {
                    return Some(e);
                }
                i += 1;
            }
            None
        },
    }
}

/// What a document loads to. A failure is a leaf of the loaded value;
/// for a strict loader the first one is the outcome of the whole.
pub open spec fn loaded(d: Seq<EntryView>, strict: bool) -> Result<HoconView, ErrorView> {
    let tree = resolved(d);
    if strict && first_failure(tree) is Some {
        Err(first_failure(tree).unwrap())
    } else {
        Ok(projected(tree))
    }
}

/// The outcome of loading as a mathematical value.
pub open spec fn hocon_result_view(r: Result<Hocon, Error>) -> Result<HoconView, ErrorView> {
    match r {
        Ok(h) => Ok(h@),
        Err(e) => Err(e@),
    }
}

impl Document {
    /// Resolves the document and projects the tree onto the value tree.
    pub fn hocon(&self, strict: bool) -> (r: Result<Hocon, Error>)
        ensures
            hocon_result_view(r) == loaded(self@, strict),
    {
        let tree = resolve(self);
        if strict {
            if let Some(e) = find_failure(&tree) {
                return Err(e);
            }
        }
        Ok(project(&tree))
    }
}

} // verus!
