//! The shortest text of a resolved tree: objects in braces with quoted
//! keys, arrays in brackets, members and elements parted by commas, and
//! nothing between the tokens.

use crate::render::{integer_text, write_integer};
use crate::text::push_chars;
use crate::tree::{lemma_array_view, lemma_hash_view, members_view, nodes_view, Node, NodeView};
use crate::value::{Value, ValueView};
use vstd::prelude::*;

verus! {

/// The text that stands for one character inside quotes: the quote, the
/// backslash, the newline and the carriage return are written as escape
/// sequences, and every other character as it is.
pub open spec fn escaped_char(c: char) -> Seq<char> {
    if c == '"' {
        seq!['\\', '"']
    } else if c == '\\' {
        seq!['\\', '\\']
    } else if c == '\n' {
        seq!['\\', 'n']
    } else if c == '\r' {
        seq!['\\', 'r']
    } else {
        seq![c]
    }
}

/// The characters of `t` from `from` on as they are written inside quotes.
pub open spec fn escaped(t: Seq<char>, from: nat) -> Seq<char>
    decreases t.len() - from,
{
    if from >= t.len() {
        Seq::empty()
    } else {
        escaped_char(t[from as int]) + escaped(t, from + 1)
    }
}

/// A text in quotes.
pub open spec fn quoted(t: Seq<char>) -> Seq<char> {
    seq!['"'] + escaped(t, 0) + seq!['"']
}

/// The text of a leaf: `null`, `true`, `false`, an integer in decimal, any
/// other number as it was written, a string in quotes. What is no such
/// value is written as `null`.
pub open spec fn written_leaf(v: ValueView) -> Seq<char> {
    match v {
        ValueView::Boolean(b) => if b {
            seq!['t', 'r', 'u', 'e']
        } else {
            seq!['f', 'a', 'l', 's', 'e']
        },
        ValueView::Integer(i) => integer_text(i as int),
        ValueView::Real(t) => t,
        ValueView::String(t) => quoted(t),
        _ => seq!['n', 'u', 'l', 'l'],
    }
}

/// The shortest text of a tree.
pub open spec fn written(n: NodeView) -> Seq<char>
    decreases n, 0nat,
{
    match n {
        NodeView::Leaf(v) => written_leaf(v),
        NodeView::Hash(members) => seq!['{'] + written_members(members, 0) + seq!['}'],
        NodeView::Array(items, _) => seq!['['] + written_items(items, 0) + seq![']'],
    }
}

/// The comma that parts a member or an element from the one before it;
/// nothing before the first.
pub open spec fn comma_before(at: nat) -> Seq<char> {
    if at > 0 {
        seq![',']
    } else {
        Seq::empty()
    }
}

/// The text of the members `members[from..]` of an object: each is its
/// name in quotes, a colon and its value, and a comma stands before each
/// but the first.
pub open spec fn written_members(members: Seq<(Seq<char>, NodeView)>, from: nat) -> Seq<char>
    decreases members, members.len() - from,
{
    if from >= members.len() {
        Seq::empty()
    } else {
        comma_before(from) + quoted(members[from as int].0) + seq![':'] + written(
            members[from as int].1,
        ) + written_members(members, from + 1)
    }
}

/// The text of the elements `items[from..]` of an array, with a comma
/// before each but the first.
pub open spec fn written_items(items: Seq<NodeView>, from: nat) -> Seq<char>
    decreases items, items.len() - from,
{
    if from >= items.len() {
        Seq::empty()
    } else {
        comma_before(from) + written(items[from as int]) + written_items(items, from + 1)
    }
}

/// Writes a text in quotes to the end of `out`.
pub fn write_quoted(out: &mut Vec<char>, t: &Vec<char>)
    ensures
        final(out)@ == old(out)@ + quoted(t@),
{
    let ghost start = out@;
    out.push('"');
    let mut i: usize = 0;
    while i < t.len()
        invariant
            i <= t.len(),
            start + seq!['"'] + escaped(t@, 0) == out@ + escaped(t@, i as nat),
        decreases t.len() - i,
    {
        let c = t[i];
        let ghost before = out@;
        if c == '"' {
            out.push('\\');
            out.push('"');
        } else if c == '\\' {
            out.push('\\');
            out.push('\\');
        } else if c == '\n' {
            out.push('\\');
            out.push('n');
        } else if c == '\r' {
            out.push('\\');
            out.push('r');
        } else {
            out.push(c);
        }
        assert(out@ =~= before + escaped_char(c));
        assert(before + escaped(t@, i as nat) =~= out@ + escaped(t@, (i + 1) as nat));
        i += 1;
    }
    let ghost body = out@;
    out.push('"');
    assert(out@ =~= start + quoted(t@)) by {
        assert(body + escaped(t@, t@.len()) =~= body);
    }
}

/// Writes the text of a leaf to the end of `out`.
pub fn write_leaf(out: &mut Vec<char>, v: &Value)
    ensures
        final(out)@ == old(out)@ + written_leaf(v@),
{
    let ghost start = out@;
    match v {
        Value::Boolean(b) => {
            if *b {
                out.push('t');
                out.push('r');
                out.push('u');
                out.push('e');
                assert(out@ =~= start + seq!['t', 'r', 'u', 'e']);
            } else {
                out.push('f');
                out.push('a');
                out.push('l');
                out.push('s');
                out.push('e');
                assert(out@ =~= start + seq!['f', 'a', 'l', 's', 'e']);
            }
        },
        Value::Integer(i) => {
            let t = write_integer(*i);
            push_chars(out, &t);
        },
        Value::Real(t) => {
            push_chars(out, t);
        },
        Value::String(t) => {
            write_quoted(out, t);
        },
        _ => {
            out.push('n');
            out.push('u');
            out.push('l');
            out.push('l');
            assert(out@ =~= start + seq!['n', 'u', 'l', 'l']);
        },
    }
}

/// Writes the shortest text of a tree to the end of `out`.
pub fn write_node(out: &mut Vec<char>, n: &Node)
    ensures
        final(out)@ == old(out)@ + written(n@),
    decreases n,
{
    let ghost start = out@;
    match n {
        Node::Leaf(v) => {
            write_leaf(out, v);
        },
        Node::Hash(members) => {
            proof {
                lemma_hash_view(*members);
            }
            let ghost views = members_view(members@);
            out.push('{');
            let mut i: usize = 0;
            while i < members.len()
                invariant
                    i <= members.len(),
                    views == members_view(members@),
                    start + seq!['{'] + written_members(views, 0) == out@ + written_members(
                        views,
                        i as nat,
                    ),
                    forall|k: int|
                        0 <= k < members.len() ==> decreases_to!(n => (#[trigger] members@[k]).1),
                decreases members.len() - i,
            {
                let ghost before = out@;
                if i > 0 {
                    out.push(',');
                }
                assert(out@ =~= before + comma_before(i as nat));
                write_quoted(out, &members[i].0);
                out.push(':');
                write_node(out, &members[i].1);
                assert(before + written_members(views, i as nat) =~= out@ + written_members(
                    views,
                    (i + 1) as nat,
                ));
                i += 1;
            }
            let ghost body = out@;
            out.push('}');
            assert(out@ =~= start + (seq!['{'] + written_members(views, 0) + seq!['}'])) by {
                assert(body + written_members(views, views.len()) =~= body);
            }
        },
        Node::Array(items, last) => {
            proof {
                lemma_array_view(*items, *last);
            }
            let ghost views = nodes_view(items@);
            out.push('[');
            let mut i: usize = 0;
            while i < items.len()
                invariant
                    i <= items.len(),
                    views == nodes_view(items@),
                    start + seq!['['] + written_items(views, 0) == out@ + written_items(
                        views,
                        i as nat,
                    ),
                    forall|k: int|
                        0 <= k < items.len() ==> decreases_to!(n => #[trigger] items@[k]),
                decreases items.len() - i,
            {
                let ghost before = out@;
                if i > 0 {
                    out.push(',');
                }
                assert(out@ =~= before + comma_before(i as nat));
                write_node(out, &items[i]);
                assert(before + written_items(views, i as nat) =~= out@ + written_items(
                    views,
                    (i + 1) as nat,
                ));
                i += 1;
            }
            let ghost body = out@;
            out.push(']');
            assert(out@ =~= start + (seq!['['] + written_items(views, 0) + seq![']'])) by {
                assert(body + written_items(views, views.len()) =~= body);
            }
        },
    }
}

impl Node {
    /// The shortest text of the tree.
    pub fn minimal_text(&self) -> (r: String)
        ensures
            r@ == written(self@),
    {
        let mut out: Vec<char> = Vec::new();
        write_node(&mut out, self);
        assert(out@ =~= written(self@));
        crate::text::string_of(&out)
    }
}

} // verus!
