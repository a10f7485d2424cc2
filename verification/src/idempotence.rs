//! Writing a tree as the shortest text and loading that text gives the
//! tree back.

use crate::document::{
    array_entries, object_entries, prefixed, prefixed_entry, root_entry, stamped, stamped_entry, stamped_item,
    stamped_path,
};
use crate::error::ErrorView;
use crate::grammar::{array_at, object_at, root_at, root_members_at};
use crate::hocon::{loaded, projected, HoconView};
use crate::loader_config::{only_line_ends, parsed_text, terminated, HoconLoaderConfigView};
use crate::reading::{
    array_reads, lemma_no_inclusion, lemma_solid, lemma_solid_chars, lemma_natural_text,
    lemma_tree_reads, object_reads,
};
use crate::number_text::{lemma_number_chars, number_char};
use crate::render::natural_text;
use crate::roundtrip::{
    final_tree, flat, flat_elements, flat_items, flat_members, leaf_value, lemma_flat_elements,
    lemma_flat_loads_back, plain_leaf, plain_tree,
};
use crate::scan::{after_comments, comment_block_end, comment_end, run_end, CharClass};
use crate::text::occurs_at;
use crate::tree::NodeView;
use crate::value::{EntryView, PathItemView, ValueView};
use crate::write::{
    comma_before, escaped, escaped_char, quoted, written, written_items, written_leaf,
    written_members,
};
use vstd::prelude::*;

verus! {

/// Whether a text holds no carriage return.
pub open spec fn no_returns(w: Seq<char>) -> bool {
    forall|i: int| 0 <= i < w.len() ==> #[trigger] w[i] != '\r'
}

/// Texts without carriage returns, one behind the other, hold none.
pub proof fn lemma_no_returns_joined(a: Seq<char>, b: Seq<char>)
    requires
        no_returns(a),
        no_returns(b),
    ensures
        no_returns(a + b),
{
    assert forall|i: int| 0 <= i < (a + b).len() implies #[trigger] (a + b)[i] != '\r' by {
        if i < a.len() {
            assert((a + b)[i] == a[i]);
        } else {
            assert((a + b)[i] == b[i - a.len()]);
        }
    }
}

/// The text of a plain leaf holds no carriage return.
pub proof fn lemma_leaf_no_returns(v: ValueView)
    requires
        plain_leaf(v),
    ensures
        no_returns(written_leaf(v)),
{
    match v {
        ValueView::Integer(i) => {
            let magnitude: nat = if i < 0 {
                (-i) as nat
            } else {
                i as nat
            };
            lemma_natural_text(magnitude);
            let digits = natural_text(magnitude);
            assert(no_returns(digits)) by {
                assert forall|k: int| 0 <= k < digits.len() implies #[trigger] digits[k] != '\r' by {
                    assert(CharClass::Digit.holds(digits[k]));
                }
            }
            if i < 0 {
                lemma_no_returns_joined(seq!['-'], digits);
            }
        },
        ValueView::String(t) => {
            lemma_quoted_no_returns(t);
        },
        ValueView::Real(t) => {
            lemma_number_chars(t);
            assert forall|k: int| 0 <= k < t.len() implies #[trigger] t[k] != '\r' by {
                assert(number_char(t[k]));
            }
        },
        _ => {},
    }
}

/// What is written of a text between quotes holds no carriage return.
pub proof fn lemma_escaped_no_returns(t: Seq<char>, from: nat)
    ensures
        no_returns(escaped(t, from)),
    decreases t.len() - from,
{
    if from < t.len() {
        lemma_escaped_no_returns(t, from + 1);
        lemma_no_returns_joined(escaped_char(t[from as int]), escaped(t, from + 1));
    }
}

/// A text in quotes holds no carriage return.
pub proof fn lemma_quoted_no_returns(t: Seq<char>)
    ensures
        no_returns(quoted(t)),
{
    lemma_escaped_no_returns(t, 0);
    lemma_no_returns_joined(seq!['"'], escaped(t, 0));
    lemma_no_returns_joined(seq!['"'] + escaped(t, 0), seq!['"']);
}

/// The text of a plain tree holds no carriage return.
pub proof fn lemma_written_no_returns(n: NodeView)
    requires
        plain_tree(n),
    ensures
        no_returns(written(n)),
    decreases n, 1nat,
{
    match n {
        NodeView::Leaf(v) => {
            lemma_leaf_no_returns(v);
        },
        NodeView::Hash(members) => {
            lemma_members_no_returns(members, 0);
            lemma_no_returns_joined(seq!['{'], written_members(members, 0));
            lemma_no_returns_joined(seq!['{'] + written_members(members, 0), seq!['}']);
        },
        NodeView::Array(items, last) => {
            lemma_items_no_returns(items, 0);
            lemma_no_returns_joined(seq!['['], written_items(items, 0));
            lemma_no_returns_joined(seq!['['] + written_items(items, 0), seq![']']);
        },
    }
}

/// The text of the members of a plain object holds no carriage return.
pub proof fn lemma_members_no_returns(members: Seq<(Seq<char>, NodeView)>, from: nat)
    requires
        plain_tree(NodeView::Hash(members)),
    ensures
        no_returns(written_members(members, from)),
    decreases members, members.len() - from, 0nat,
{
    if from < members.len() {
        let name = members[from as int].0;
        let value = members[from as int].1;
        assert(plain_tree(value));
        lemma_quoted_no_returns(name);
        lemma_written_no_returns(value);
        lemma_members_no_returns(members, from + 1);
        let a = comma_before(from) + quoted(name);
        lemma_no_returns_joined(comma_before(from), quoted(name));
        lemma_no_returns_joined(a, seq![':']);
        lemma_no_returns_joined(a + seq![':'], written(value));
        lemma_no_returns_joined(
            a + seq![':'] + written(value),
            written_members(members, from + 1),
        );
    }
}

/// The text of the elements of a plain array holds no carriage return.
pub proof fn lemma_items_no_returns(items: Seq<NodeView>, from: nat)
    requires
        forall|i: int| 0 <= i < items.len() ==> plain_tree(#[trigger] items[i]),
    ensures
        no_returns(written_items(items, from)),
    decreases items, items.len() - from, 0nat,
{
    if from < items.len() {
        let value = items[from as int];
        lemma_written_no_returns(value);
        lemma_items_no_returns(items, from + 1);
        lemma_no_returns_joined(comma_before(from), written(value));
        lemma_no_returns_joined(
            comma_before(from) + written(value),
            written_items(items, from + 1),
        );
    }
}

/// A text without carriage returns is made ready for the grammar by a
/// newline and the character with code 0 at its end.
pub proof fn lemma_terminated(w: Seq<char>)
    requires
        no_returns(w),
    ensures
        terminated(w) == w + seq!['\n', '\0'],
{
    assert(terminated(w) =~= w + seq!['\n', '\0']);
}

/// Whether an entry is the same for every document: its path holds no
/// append operator, and its value asks for no other document.
pub open spec fn settled(e: EntryView) -> bool {
    !(e.value is Inclusion) && forall|i: int|
        0 <= i < e.path.len() ==> !(#[trigger] e.path[i] is Append)
}

/// Whether every entry of `d` is the same for every document.
pub open spec fn all_settled(d: Seq<EntryView>) -> bool {
    forall|i: int| 0 <= i < d.len() ==> settled(#[trigger] d[i])
}

/// Entries that are the same for every document stay as they are when
/// they are marked as those of one.
pub proof fn lemma_stamped_settled(d: Seq<EntryView>, tag: Seq<char>, depth: u8, base: Option<Seq<char>>)
    requires
        all_settled(d),
    ensures
        stamped(d, tag, depth, base) == d,
{
    assert forall|i: int| 0 <= i < d.len() implies stamped_entry(d[i], tag, depth, base)
        == d[i] by {
        let e = d[i];
        assert(settled(e));
        assert(stamped_path(e.path, tag) =~= e.path) by {
            assert forall|k: int| 0 <= k < e.path.len() implies stamped_item(e.path[k], tag)
                == e.path[k] by {
                assert(!(e.path[k] is Append));
            }
        }
    }
    assert(stamped(d, tag, depth, base) =~= d);
}

/// Settled entries under a key or an index are settled.
pub proof fn lemma_prefixed_settled(item: PathItemView, d: Seq<EntryView>)
    requires
        all_settled(d),
        !(item is Append),
    ensures
        all_settled(prefixed(seq![item], d)),
{
    let p = prefixed(seq![item], d);
    assert forall|i: int| 0 <= i < p.len() implies settled(#[trigger] p[i]) by {
        let e = d[i];
        assert(settled(e));
        assert(p[i] == prefixed_entry(seq![item], e));
        assert forall|k: int| 0 <= k < p[i].path.len() implies !(#[trigger] p[i].path[k]
            is Append) by {
            if k > 0 {
                assert(p[i].path[k] == e.path[k - 1]);
            }
        }
    }
}

/// Settled entries, one sequence behind the other, are settled.
pub proof fn lemma_joined_settled(a: Seq<EntryView>, b: Seq<EntryView>)
    requires
        all_settled(a),
        all_settled(b),
    ensures
        all_settled(a + b),
{
    assert forall|i: int| 0 <= i < (a + b).len() implies settled(#[trigger] (a + b)[i]) by {
        if i < a.len() {
            assert((a + b)[i] == a[i]);
        } else {
            assert((a + b)[i] == b[i - a.len()]);
        }
    }
}

/// The entries of a plain tree are the same for every document.
pub proof fn lemma_flat_settled(n: NodeView)
    requires
        plain_tree(n),
    ensures
        all_settled(flat(n)),
    decreases n, 1nat,
{
    match n {
        NodeView::Leaf(v) => {
            assert(settled(root_entry(leaf_value(v))));
        },
        NodeView::Hash(members) => {
            lemma_flat_members_settled(members, 0);
            assert(settled(root_entry(ValueView::EmptyObject)));
        },
        NodeView::Array(items, last) => {
            lemma_flat_elements_settled(items, 0);
            assert(settled(root_entry(ValueView::EmptyArray)));
            lemma_joined_settled(seq![root_entry(ValueView::EmptyArray)], flat_elements(items, 0));
        },
    }
}

/// The entries of the members of a plain object are the same for every
/// document.
pub proof fn lemma_flat_members_settled(members: Seq<(Seq<char>, NodeView)>, from: nat)
    requires
        forall|i: int| 0 <= i < members.len() ==> plain_tree((#[trigger] members[i]).1),
    ensures
        all_settled(flat_members(members, from)),
    decreases members, members.len() - from, 0nat,
{
    if from < members.len() {
        let item = PathItemView::Key(members[from as int].0);
        lemma_flat_settled(members[from as int].1);
        lemma_prefixed_settled(item, flat(members[from as int].1));
        lemma_flat_members_settled(members, from + 1);
        lemma_joined_settled(
            prefixed(seq![item], flat(members[from as int].1)),
            flat_members(members, from + 1),
        );
    }
}

/// The entries of the elements of a plain array are the same for every
/// document.
pub proof fn lemma_flat_elements_settled(items: Seq<NodeView>, from: nat)
    requires
        forall|i: int| 0 <= i < items.len() ==> plain_tree(#[trigger] items[i]),
    ensures
        all_settled(flat_elements(items, from)),
    decreases items, items.len() - from, 0nat,
{
    if from < items.len() {
        let item = PathItemView::Index(from as int);
        lemma_flat_settled(items[from as int]);
        lemma_prefixed_settled(item, flat(items[from as int]));
        lemma_flat_elements_settled(items, from + 1);
        lemma_joined_settled(
            prefixed(seq![item], flat(items[from as int])),
            flat_elements(items, from + 1),
        );
    }
}

/// Where a text begins with a brace and an object stands at its start,
/// the object is the document of the text.
pub proof fn lemma_root_of_object(s: Seq<char>)
    requires
        s.len() > 0,
        s[0] == '{',
    ensures
        object_at(s, 0) matches Some(t) ==> root_at(s, 0) == Some(
            (object_entries(t.0), after_comments(s, t.1)),
        ),
{
    lemma_solid_chars(s[0]);
    lemma_solid(s, 0);
    lemma_no_inclusion(s, 0);
    assert(root_members_at(s, 0) is None);
}

/// Where a text begins with a bracket and an array stands at its start,
/// the array is the document of the text.
pub proof fn lemma_root_of_array(s: Seq<char>)
    requires
        s.len() > 0,
        s[0] == '[',
    ensures
        array_at(s, 0) matches Some(t) ==> root_at(s, 0) == Some(
            (array_entries(t.0), after_comments(s, run_end(s, t.1, CharClass::Blank))),
        ),
{
    lemma_solid_chars(s[0]);
    lemma_solid(s, 0);
    lemma_no_inclusion(s, 0);
}

/// Before the newline and the character with code 0 that end a text stand
/// no comments, and behind them stands nothing.
pub proof fn lemma_text_end(s: Seq<char>, end: int)
    requires
        0 <= end,
        end + 2 == s.len(),
        s[end] == '\n',
        s[end + 1] == '\0',
    ensures
        after_comments(s, end) == end,
        only_line_ends(s, end),
{
    assert(run_end(s, end + 1, CharClass::Newline) == end + 1);
    assert(run_end(s, end, CharClass::Newline) == end + 1);
    assert(run_end(s, end + 1, CharClass::Blank) == end + 1);
    assert(comment_end(s, end + 1) is None);
    assert(comment_block_end(s, end) is None);
}

/// An object that fills a text up to the newline and the character with
/// code 0 at its end is the document of the text.
pub proof fn lemma_root_reads(s: Seq<char>, d: Seq<EntryView>, end: int)
    requires
        0 < end,
        end + 2 == s.len(),
        s[0] == '{',
        s[end] == '\n',
        s[end + 1] == '\0',
        object_reads(s, 0, d, end),
    ensures
        root_at(s, 0) == Some((object_entries(d), end)),
        only_line_ends(s, end),
{
    reveal(object_reads);
    lemma_root_of_object(s);
    lemma_text_end(s, end);
}

/// An array that fills a text up to the newline and the character with
/// code 0 at its end is the document of the text.
pub proof fn lemma_array_root_reads(s: Seq<char>, d: Seq<Seq<EntryView>>, end: int)
    requires
        0 < end,
        end + 2 == s.len(),
        s[0] == '[',
        s[end] == '\n',
        s[end + 1] == '\0',
        array_reads(s, 0, d, end),
    ensures
        root_at(s, 0) == Some((array_entries(d), end)),
        only_line_ends(s, end),
{
    reveal(array_reads);
    lemma_root_of_array(s);
    lemma_text_end(s, end);
    assert(run_end(s, end, CharClass::Blank) == end);
}

/// An object or an array of plain values, written as the shortest text and
/// loaded again, is the same object or array.
///
/// The tree holds null, booleans, integers, other numbers as the grammar
/// writes them, strings, arrays and objects, and within one object every
/// name is used once. Then the grammar reads the text to its end, for a
/// strict loader as for any other and whatever the rest of the
/// configuration, and the document that it yields loads to the value of
/// the tree.
pub proof fn lemma_written_tree_loads_back(n: NodeView, config: HoconLoaderConfigView, tag: Seq<char>)
    requires
        plain_tree(n),
        final_tree(n),
        n is Hash || n is Array,
    ensures
        parsed_text(config, written(n), tag) == Ok::<Seq<EntryView>, ErrorView>(flat(n)),
        loaded(flat(n), config.strict) == Ok::<HoconView, ErrorView>(projected(n)),
{
    let w = written(n);
    let s = w + seq!['\n', '\0'];
    lemma_written_no_returns(n);
    lemma_terminated(w);
    assert(occurs_at(s, 0, w)) by {
        assert(s.subrange(0, w.len() as int) =~= w);
    }
    assert(s[w.len() as int] == '\n');
    lemma_tree_reads(n, s, 0);
    match n {
        NodeView::Hash(members) => {
            assert(w[0] == '{');
            lemma_root_reads(s, flat_members(members, 0), w.len() as int);
        },
        NodeView::Array(items, _) => {
            assert(w[0] == '[');
            lemma_array_root_reads(s, flat_items(items), w.len() as int);
            lemma_flat_elements(items, 0);
        },
        _ => {},
    }
    lemma_flat_settled(n);
    lemma_stamped_settled(
        flat(n),
        tag,
        config.include_depth,
        crate::loader_config::base_directory(config),
    );
    lemma_flat_loads_back(n, config.strict);
}

} // verus!
