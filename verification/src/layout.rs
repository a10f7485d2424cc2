//! Documents in any layout. Between the tokens of a JSON document spaces,
//! tabs and newlines may stand. The grammar reads such a document as it
//! reads the shortest text of the same value, but for a few places where
//! a line break means more to it than to JSON: before a comma, and before
//! the brace or bracket that opens the document.

use crate::document::{array_entries, object_entries, prefixed, root_entry};
use crate::error::ErrorView;
use crate::hocon::{loaded, projected, HoconView};
use crate::idempotence::{
    lemma_flat_settled, lemma_leaf_no_returns, lemma_no_returns_joined, lemma_stamped_settled,
    no_returns,
};
use crate::loader_config::{
    base_directory, only_line_ends, parsed_text, terminated, HoconLoaderConfigView,
};
use crate::grammar::{
    array_at, arrays_at, closing_end, counted_tokens, element_at, elements_at, folded,
    is_blank_word, key_at, member_at, member_of, member_tail_at, members_at, more_arrays_at,
    more_elements_at, more_members_at, more_objects_at, object_at, objects_at, root_members_at,
    separators_end, single_value_at, tokens_at, value_at,
};
use crate::reading::{
    array_reads, element_reads, elements_from, elements_read, lemma_element_of_value, lemma_leaf_start,
    lemma_no_inclusion, lemma_no_objects, lemma_no_substitution, lemma_no_token_start,
    lemma_reads_boolean, lemma_reads_integer, lemma_reads_quoted, lemma_run_exact, lemma_solid,
    lemma_solid_chars, lemma_elements_end_read, lemma_elements_read, lemma_members_read,
    lemma_word_is_no_other_token, member_reads, members_from, members_read, more_elements_read,
    more_members_read, object_reads, solid, starts_value,
};
use crate::number_text::lemma_reads_real;
use crate::roundtrip::{
    as_read, distinct_keys, flat, flat_items, flat_members, items_as_read, leaf_value,
    lemma_as_read, lemma_as_read_plain, lemma_flat_elements, lemma_plain_has_no_failure,
    lemma_resolved_flat, members_as_read, null_word, plain_leaf, plain_tree,
};
use crate::spelling::{
    lemma_decoded_units, lemma_spelling_reads, quoted_units, unit_ok, unit_text, units_ok,
    units_text, units_value, Unit,
};
use crate::scan::{
    after_comments, comment_block_end, comment_end, is_structural, lemma_run_end, run_end,
    unquoted_end, unquoted_string_at, CharClass,
};
use crate::text::{lemma_first_char, lemma_occurs_chars, lemma_occurs_parts, occurs_at};
use crate::tree::NodeView;
use crate::value::{EntryView, PathItemView, PathView, ValueView};
use crate::words::{is_blank, key_path, trim_end, trim_start, trimmed};
use crate::write::{comma_before, written_leaf};
use vstd::prelude::*;

verus! {

/// Whether `w` holds nothing but spaces, tabs and newlines.
pub open spec fn is_gap(w: Seq<char>) -> bool {
    forall|i: int| 0 <= i < w.len() ==> (#[trigger] w[i]) == ' ' || w[i] == '\t' || w[i] == '\n'
}

/// Whether `w` holds nothing but spaces and tabs.
pub open spec fn is_inline_gap(w: Seq<char>) -> bool {
    forall|i: int| 0 <= i < w.len() ==> (#[trigger] w[i]) == ' ' || w[i] == '\t'
}

/// A document with its layout.
pub enum Laid {
    /// A scalar, written in the shortest way.
    Leaf(ValueView),
    /// A string in some spelling.
    Text(Seq<Unit>),
    /// An object: its members, and what stands before the closing brace.
    Hash(Seq<LaidMember>, Seq<char>),
    /// An array: its elements, and what stands before the closing bracket.
    Array(Seq<LaidItem>, Seq<char>),
}

/// A member of an object with its layout: what stands before the name,
/// the spelling of the name, what stands between the name and the colon
/// and between the colon and the value, the value, and what stands behind
/// the value.
pub struct LaidMember {
    pub before: Seq<char>,
    pub name: Seq<Unit>,
    pub after_name: Seq<char>,
    pub after_colon: Seq<char>,
    pub value: Laid,
    pub after: Seq<char>,
}

/// The name of a member.
pub open spec fn member_name(m: LaidMember) -> Seq<char> {
    units_value(m.name, 0)
}

/// An element of an array with its layout: what stands before the value,
/// the value, and what stands behind it.
pub struct LaidItem {
    pub before: Seq<char>,
    pub value: Laid,
    pub after: Seq<char>,
}

/// The text of a document with its layout.
pub open spec fn laid_text(l: Laid) -> Seq<char>
    decreases l, 0nat,
{
    match l {
        Laid::Leaf(v) => written_leaf(v),
        Laid::Text(units) => quoted_units(units),
        Laid::Hash(members, close) => seq!['{'] + laid_members_text(members, close, 0),
        Laid::Array(items, close) => seq!['['] + laid_items_text(items, close, 0),
    }
}

/// The text of an object from the member `from` on, up to the closing
/// brace: a comma stands before each member but the first.
pub open spec fn laid_members_text(members: Seq<LaidMember>, close: Seq<char>, from: nat) -> Seq<
    char,
>
    decreases members, members.len() - from, 1nat,
{
    if from >= members.len() {
        close + seq!['}']
    } else {
        comma_before(from) + (members[from as int].before + laid_member_text(
            members,
            close,
            from,
        ))
    }
}

/// The text of an object from the name of the member `from` on.
pub open spec fn laid_member_text(members: Seq<LaidMember>, close: Seq<char>, from: nat) -> Seq<
    char,
>
    decreases members, members.len() - from, 0nat,
{
    if from >= members.len() {
        Seq::empty()
    } else {
        let m = members[from as int];
        quoted_units(m.name) + (m.after_name + (seq![':'] + (m.after_colon + (laid_text(m.value) + (
        m.after + laid_members_text(members, close, from + 1))))))
    }
}

/// The text of an array from the element `from` on, up to the closing
/// bracket.
pub open spec fn laid_items_text(items: Seq<LaidItem>, close: Seq<char>, from: nat) -> Seq<char>
    decreases items, items.len() - from, 1nat,
{
    if from >= items.len() {
        close + seq![']']
    } else {
        comma_before(from) + (items[from as int].before + laid_item_text(items, close, from))
    }
}

/// The text of an array from the value of the element `from` on.
pub open spec fn laid_item_text(items: Seq<LaidItem>, close: Seq<char>, from: nat) -> Seq<char>
    decreases items, items.len() - from, 0nat,
{
    if from >= items.len() {
        Seq::empty()
    } else {
        let e = items[from as int];
        laid_text(e.value) + (e.after + laid_items_text(items, close, from + 1))
    }
}

/// The value of a document, whatever its layout.
pub open spec fn laid_value(l: Laid) -> NodeView
    decreases l,
{
    match l {
        Laid::Leaf(v) => NodeView::Leaf(v),
        Laid::Text(units) => NodeView::Leaf(ValueView::String(units_value(units, 0))),
        Laid::Hash(members, _) => NodeView::Hash(
            Seq::new(
                members.len(),
                |i: int|
                    if 0 <= i < members.len() {
                        (member_name(members[i]), laid_value(members[i].value))
                    } else {
                        (Seq::empty(), NodeView::Hash(Seq::empty()))
                    },
            ),
        ),
        Laid::Array(items, _) => NodeView::Array(
            Seq::new(
                items.len(),
                |i: int|
                    if 0 <= i < items.len() {
                        laid_value(items[i].value)
                    } else {
                        NodeView::Hash(Seq::empty())
                    },
            ),
            None,
        ),
    }
}

/// Whether `s[from..to]` holds nothing but spaces, tabs and newlines, and
/// a solid character stands at `to`.
pub open spec fn gap_between(s: Seq<char>, from: int, to: int) -> bool {
    &&& 0 <= from <= to < s.len()
    &&& forall|i: int| from <= i < to ==> (#[trigger] s[i]) == ' ' || s[i] == '\t' || s[i] == '\n'
    &&& solid(s[to])
}

/// No run of blanks, newlines or whitespace that starts in a gap goes
/// beyond the gap, and a run of whitespace reaches its end.
pub proof fn lemma_runs_in_gap(s: Seq<char>, from: int, to: int, x: int)
    requires
        gap_between(s, from, to),
        from <= x <= to,
    ensures
        run_end(s, x, CharClass::Whitespace) == to,
        x <= run_end(s, x, CharClass::Blank) <= to,
        x <= run_end(s, x, CharClass::Newline) <= to,
    decreases to - x,
{
    lemma_run_exact(s, x, to, CharClass::Whitespace);
    if x < to {
        lemma_runs_in_gap(s, from, to, x + 1);
    }
}

/// In a gap no comment starts.
pub proof fn lemma_no_comment_in_gap(s: Seq<char>, from: int, to: int, x: int)
    requires
        gap_between(s, from, to),
        from <= x <= to,
    ensures
        comment_block_end(s, x) is None,
        after_comments(s, x) == x,
{
    lemma_runs_in_gap(s, from, to, x);
    let a = run_end(s, x, CharClass::Newline);
    lemma_runs_in_gap(s, from, to, a);
    let b = run_end(s, a, CharClass::Blank);
    lemma_run_end(s, a, CharClass::Blank);
    assert(comment_end(s, b) is None);
}

/// The position behind the spaces that start at `pos`.
pub open spec fn spaces_end(s: Seq<char>, pos: int) -> int
    decreases s.len() - pos,
{
    if 0 <= pos < s.len() && s[pos] == ' ' {
        spaces_end(s, pos + 1)
    } else {
        pos
    }
}

/// The characters that may stand behind a value and the spaces that
/// follow it: tab, newline, comma, and the closing brace and bracket.
pub open spec fn ender(c: char) -> bool {
    c == '\t' || c == '\n' || c == ',' || c == '}' || c == ']'
}

/// Spaces end in the text, at or behind their start, at something that is
/// no space.
pub proof fn lemma_spaces_end(s: Seq<char>, pos: int)
    requires
        0 <= pos <= s.len(),
    ensures
        pos <= spaces_end(s, pos) <= s.len(),
        forall|i: int| pos <= i < spaces_end(s, pos) ==> (#[trigger] s[i]) == ' ',
        spaces_end(s, pos) < s.len() ==> s[spaces_end(s, pos)] != ' ',
    decreases s.len() - pos,
{
    if pos < s.len() && s[pos] == ' ' {
        lemma_spaces_end(s, pos + 1);
    }
}

/// A word runs over spaces up to the character that ends it.
pub proof fn lemma_word_over_spaces(s: Seq<char>, pos: int, end: int)
    requires
        0 <= pos <= end < s.len(),
        forall|i: int| pos <= i < end ==> (#[trigger] s[i]) == ' ',
        is_structural(s[end]),
    ensures
        unquoted_end(s, pos) == end,
    decreases end - pos,
{
    if pos < end {
        assert(s[pos] == ' ');
        lemma_word_over_spaces(s, pos + 1, end);
    }
}

/// A text of spaces is blank.
pub proof fn lemma_spaces_are_blank(w: Seq<char>, from: int)
    requires
        0 <= from <= w.len(),
        forall|i: int| 0 <= i < w.len() ==> (#[trigger] w[i]) == ' ',
    ensures
        trim_start(w, from, w.len() as int) == w.len(),
    decreases w.len() - from,
{
    if from < w.len() {
        assert(w[from] == ' ');
        lemma_spaces_are_blank(w, from + 1);
    }
}

/// At a character that ends a value no token starts.
pub proof fn lemma_ender_is_no_token(s: Seq<char>, pos: int)
    requires
        0 <= pos < s.len(),
        ender(s[pos]),
    ensures
        single_value_at(s, pos) is None,
        tokens_at(s, pos) == (Seq::<ValueView>::empty(), pos),
{
    lemma_no_token_start(s, pos);
    assert(is_structural(s[pos]));
    assert(unquoted_end(s, pos) == pos);
}

/// Spaces behind a token are a token of their own, and the last.
pub proof fn lemma_spaces_token(s: Seq<char>, pos: int, end: int)
    requires
        0 <= pos < end < s.len(),
        forall|i: int| pos <= i < end ==> (#[trigger] s[i]) == ' ',
        ender(s[end]),
    ensures
        tokens_at(s, pos) == (seq![ValueView::UnquotedString(s.subrange(pos, end))], end),
        is_blank(s.subrange(pos, end)),
{
    assert(s[pos] == ' ');
    lemma_word_is_no_other_token(s, pos);
    lemma_word_over_spaces(s, pos, end);
    lemma_ender_is_no_token(s, end);
    let w = s.subrange(pos, end);
    lemma_spaces_are_blank(w, 0);
    assert(unquoted_string_at(s, pos) == Some(end));
    assert(single_value_at(s, pos) == Some((ValueView::UnquotedString(w), end)));
    assert(seq![ValueView::UnquotedString(w)] + Seq::<ValueView>::empty() =~= seq![
        ValueView::UnquotedString(w),
    ]);
}

/// A token that is no word, with spaces behind it, is the value.
pub proof fn lemma_value_before_spaces(s: Seq<char>, pos: int, v: ValueView, mid: int, end: int)
    requires
        0 <= pos < mid <= end < s.len(),
        solid(s[pos]),
        !(v is UnquotedString),
        single_value_at(s, pos) == Some((v, mid)),
        forall|i: int| mid <= i < end ==> (#[trigger] s[i]) == ' ',
        ender(s[end]),
    ensures
        value_at(s, pos) == Some((v, end)),
{
    lemma_solid(s, pos);
    if mid == end {
        lemma_ender_is_no_token(s, end);
    } else {
        lemma_spaces_token(s, mid, end);
        let blank = ValueView::UnquotedString(s.subrange(mid, end));
        let tokens = seq![v] + seq![blank];
        assert(is_blank_word(blank));
        assert(!is_blank_word(v));
        assert(tokens.len() == 2 && tokens[0] == v && tokens[1] == blank);
        assert(tokens.drop_last() =~= seq![v]);
        assert(counted_tokens(tokens) =~= seq![v]);
        assert(folded(tokens) == v);
    }
}

/// The word `null` with spaces behind it is one word.
pub proof fn lemma_null_before_spaces(s: Seq<char>, pos: int, end: int)
    requires
        occurs_at(s, pos, null_word()),
        pos + 4 <= end < s.len(),
        forall|i: int| pos + 4 <= i < end ==> (#[trigger] s[i]) == ' ',
        ender(s[end]),
    ensures
        single_value_at(s, pos) == Some((ValueView::UnquotedString(s.subrange(pos, end)), end)),
        value_at(s, pos) == Some((ValueView::UnquotedString(s.subrange(pos, end)), end)),
        trimmed(s.subrange(pos, end)) == null_word(),
{
    let w = null_word();
    lemma_occurs_chars(s, pos, w);
    assert(s[pos] == w[0] && s[pos + 1] == w[1] && s[pos + 2] == w[2] && s[pos + 3] == w[3]);
    lemma_word_is_no_other_token(s, pos);
    lemma_word_over_spaces(s, pos + 4, end);
    assert(unquoted_end(s, pos + 3) == end);
    assert(unquoted_end(s, pos + 2) == end);
    assert(unquoted_end(s, pos + 1) == end);
    assert(unquoted_end(s, pos) == end);
    lemma_solid_chars(s[pos]);
    lemma_solid(s, pos);
    lemma_ender_is_no_token(s, end);
    let t = s.subrange(pos, end);
    assert(t[0] == 'n' && t[3] == 'l');
    assert(trim_start(t, 0, t.len() as int) == 0);
    lemma_trim_spaces(t, 4);
    assert(t.subrange(0, 4) =~= w);
}

/// Spaces at the end of a text, behind something that is no space, are cut
/// off it.
pub proof fn lemma_trim_spaces(t: Seq<char>, keep: int)
    requires
        0 < keep <= t.len(),
        !CharClass::Space.holds(t[keep - 1]),
        forall|i: int| keep <= i < t.len() ==> (#[trigger] t[i]) == ' ',
    ensures
        trim_end(t, 0, t.len() as int) == keep,
{
    lemma_trim_end_from(t, keep, t.len() as int);
}

/// Cutting spaces off the end of `t[..to]` stops behind `t[keep - 1]`.
pub proof fn lemma_trim_end_from(t: Seq<char>, keep: int, to: int)
    requires
        0 < keep <= to <= t.len(),
        !CharClass::Space.holds(t[keep - 1]),
        forall|i: int| keep <= i < t.len() ==> (#[trigger] t[i]) == ' ',
    ensures
        trim_end(t, 0, to) == keep,
    decreases to - keep,
{
    if keep < to {
        assert(t[to - 1] == ' ');
        lemma_trim_end_from(t, keep, to - 1);
    }
}

/// The value that the grammar yields for a scalar with the spaces `sp`
/// behind it: the scalar, but for `null`, which is a word and takes the
/// spaces with it.
pub open spec fn spelled_leaf(v: ValueView, sp: Seq<char>) -> ValueView {
    if v is Null && sp.len() > 0 {
        ValueView::UnquotedString(null_word() + sp)
    } else {
        leaf_value(v)
    }
}

/// A scalar with spaces behind it, and behind them a character that ends
/// a value, is read as the value that is spelled so.
pub proof fn lemma_value_in_layout(s: Seq<char>, pos: int, v: ValueView)
    requires
        plain_leaf(v),
        !(v is UnquotedString),
        occurs_at(s, pos, written_leaf(v)),
        spaces_end(s, pos + written_leaf(v).len()) < s.len(),
        ender(s[spaces_end(s, pos + written_leaf(v).len())]),
    ensures
        value_at(s, pos) == Some(
            (
                spelled_leaf(
                    v,
                    s.subrange(
                        pos + written_leaf(v).len(),
                        spaces_end(s, pos + written_leaf(v).len()),
                    ),
                ),
                spaces_end(s, pos + written_leaf(v).len()),
            ),
        ),
{
    let w = written_leaf(v);
    let mid = pos + w.len();
    let end = spaces_end(s, mid);
    lemma_spaces_end(s, mid);
    lemma_leaf_start(v);
    lemma_first_char(s, pos, w);
    lemma_solid_chars(s[pos]);
    let sp = s.subrange(mid, end);
    match v {
        ValueView::Integer(i) => {
            lemma_reads_integer(s, pos, i);
            lemma_value_before_spaces(s, pos, v, mid, end);
        },
        ValueView::String(t) => {
            lemma_reads_quoted(s, pos, t);
            lemma_value_before_spaces(s, pos, v, mid, end);
        },
        ValueView::Real(t) => {
            lemma_reads_real(s, pos, t);
            assert(single_value_at(s, pos) == Some((v, mid)));
            lemma_value_before_spaces(s, pos, v, mid, end);
        },
        ValueView::Boolean(b) => {
            lemma_reads_boolean(s, pos, b);
            lemma_value_before_spaces(s, pos, v, mid, end);
        },
        _ => {
            lemma_null_before_spaces(s, pos, end);
            assert(s.subrange(pos, end) =~= null_word() + sp);
            if sp.len() == 0 {
                assert(null_word() + sp =~= null_word());
            }
        },
    }
}

/// A scalar in a layout gives its entry.
pub proof fn lemma_leaf_in_layout(s: Seq<char>, pos: int, v: ValueView)
    requires
        plain_leaf(v),
        !(v is UnquotedString),
        occurs_at(s, pos, written_leaf(v)),
        spaces_end(s, pos + written_leaf(v).len()) < s.len(),
        ender(s[spaces_end(s, pos + written_leaf(v).len())]),
    ensures
        element_reads(
            s,
            pos,
            seq![
                root_entry(
                    spelled_leaf(
                        v,
                        s.subrange(
                            pos + written_leaf(v).len(),
                            spaces_end(s, pos + written_leaf(v).len()),
                        ),
                    ),
                ),
            ],
            spaces_end(s, pos + written_leaf(v).len()),
        ),
{
    reveal(element_reads);
    let w = written_leaf(v);
    let mid = pos + w.len();
    let end = spaces_end(s, mid);
    lemma_value_in_layout(s, pos, v);
    lemma_leaf_start(v);
    lemma_first_char(s, pos, w);
    lemma_solid_chars(s[pos]);
    lemma_element_of_value(s, pos, spelled_leaf(v, s.subrange(mid, end)), end);
}

/// Whether `s[from..to]` holds nothing but spaces and tabs.
pub open spec fn inline_between(s: Seq<char>, from: int, to: int) -> bool {
    &&& 0 <= from <= to <= s.len()
    &&& forall|i: int| from <= i < to ==> (#[trigger] s[i]) == ' ' || s[i] == '\t'
}

/// Spaces and tabs up to a character that is neither are a run of blanks
/// and of whitespace.
pub proof fn lemma_inline_run(s: Seq<char>, from: int, to: int)
    requires
        inline_between(s, from, to),
        to < s.len(),
        solid(s[to]) || s[to] == '\n',
    ensures
        run_end(s, from, CharClass::Blank) == to,
        solid(s[to]) ==> run_end(s, from, CharClass::Whitespace) == to,
{
    lemma_run_exact(s, from, to, CharClass::Blank);
    if solid(s[to]) {
        lemma_run_exact(s, from, to, CharClass::Whitespace);
    }
}

/// Spaces and tabs, a comma, and whitespace up to a solid character part
/// two members or elements.
pub proof fn lemma_separator_in_layout(s: Seq<char>, pos: int, comma: int, next: int)
    requires
        inline_between(s, pos, comma),
        comma < s.len(),
        s[comma] == ',',
        gap_between(s, comma + 1, next),
    ensures
        separators_end(s, pos) == Some(next),
        pos < next,
{
    reveal(separators_end);
    lemma_solid_chars(s[comma]);
    lemma_inline_run(s, pos, comma);
    lemma_solid(s, comma);
    lemma_runs_in_gap(s, comma + 1, next, comma + 1);
    lemma_solid(s, next);
}

/// In a gap before a character other than the comma, separators are
/// none, or all of the gap.
pub proof fn lemma_separators_in_gap(s: Seq<char>, pos: int, to: int)
    requires
        gap_between(s, pos, to),
        s[to] != ',',
    ensures
        separators_end(s, pos) is None || separators_end(s, pos) == Some(to),
{
    reveal(separators_end);
    lemma_runs_in_gap(s, pos, to, pos);
    let blanks = run_end(s, pos, CharClass::Blank);
    lemma_no_comment_in_gap(s, pos, to, blanks);
    let lines = run_end(s, blanks, CharClass::Newline);
    lemma_runs_in_gap(s, pos, to, blanks);
    lemma_runs_in_gap(s, pos, to, lines);
    let after = run_end(s, lines, CharClass::Blank);
    lemma_no_comment_in_gap(s, pos, to, after);
    lemma_runs_in_gap(s, pos, to, after);
}

/// A gap and a closing bracket close what is open.
pub proof fn lemma_closing_in_layout(s: Seq<char>, pos: int, to: int, c: char)
    requires
        gap_between(s, pos, to),
        s[to] == c,
        c != ',',
    ensures
        closing_end(s, pos, c) == Some(to + 1),
{
    reveal(closing_end);
    lemma_separators_in_gap(s, pos, to);
    lemma_runs_in_gap(s, pos, to, pos);
    lemma_runs_in_gap(s, pos, to, to);
}

/// A name in quotes, before a gap and a colon, is read as the key of the
/// name that is spelled.
pub proof fn lemma_key_in_layout(s: Seq<char>, pos: int, name: Seq<Unit>, colon: int)
    requires
        units_ok(name),
        occurs_at(s, pos, quoted_units(name)),
        gap_between(s, pos + quoted_units(name).len(), colon),
        s[colon] == ':',
    ensures
        key_at(s, pos) == Some((seq![PathItemView::Key(units_value(name, 0))], colon)),
        pos < colon,
{
    reveal(key_at);
    let end = pos + quoted_units(name).len();
    assert(s[end] != '"') by {
        if end < colon {
            assert(s[end] == ' ' || s[end] == '\t' || s[end] == '\n');
        }
    }
    lemma_spelling_reads(s, pos, name);
    lemma_decoded_units(name);
    lemma_first_char(s, pos, quoted_units(name));
    lemma_solid_chars(s[pos]);
    lemma_solid(s, pos);
    lemma_runs_in_gap(s, end, colon, end);
    assert(key_path(units_value(name, 0), true) =~= seq![PathItemView::Key(units_value(name, 0))]);
}

/// A colon, a gap and a value make the tail of a member.
pub proof fn lemma_tail_in_layout(s: Seq<char>, pos: int, key: PathView, value: int)
    requires
        0 <= pos < s.len(),
        s[pos] == ':',
        gap_between(s, pos + 1, value),
    ensures
        member_tail_at(s, pos, key) == member_of(key, element_at(s, value)),
{
    lemma_solid_chars(':');
    lemma_solid(s, pos);
    lemma_runs_in_gap(s, pos + 1, value, pos + 1);
    assert(!occurs_at(s, pos, seq!['+', '='])) by {
        if occurs_at(s, pos, seq!['+', '=']) {
            lemma_first_char(s, pos, seq!['+', '=']);
        }
    }
}

/// After a gap, a key and the tail behind it make a member.
pub proof fn lemma_member_start_in_layout(
    s: Seq<char>,
    pos: int,
    start: int,
    key: PathView,
    after_key: int,
)
    requires
        gap_between(s, pos, start),
        s[start] == '"',
        start < after_key <= s.len(),
        key_at(s, start) == Some((key, after_key)),
    ensures
        member_at(s, pos) == member_tail_at(s, after_key, key),
{
    lemma_runs_in_gap(s, pos, start, pos);
    lemma_no_comment_in_gap(s, pos, start, start);
    lemma_runs_in_gap(s, pos, start, start);
    lemma_solid(s, start);
    lemma_no_inclusion(s, start);
}

/// A colon, a gap and a value that gives entries make the tail of a
/// member.
pub proof fn lemma_tail_reads_in_layout(
    s: Seq<char>,
    pos: int,
    key: PathView,
    value: int,
    d: Seq<EntryView>,
    end: int,
)
    requires
        0 <= pos < s.len(),
        s[pos] == ':',
        gap_between(s, pos + 1, value),
        element_reads(s, value, d, end),
    ensures
        member_tail_at(s, pos, key) == Some((prefixed(key, d), end)),
{
    reveal(element_reads);
    lemma_tail_in_layout(s, pos, key, value);
}

/// After a gap, a key and a tail that gives entries make a member.
pub proof fn lemma_member_of_parts_in_layout(
    s: Seq<char>,
    pos: int,
    start: int,
    key: PathView,
    after_key: int,
    d: Seq<EntryView>,
    end: int,
)
    requires
        gap_between(s, pos, start),
        s[start] == '"',
        start < after_key <= s.len(),
        key_at(s, start) == Some((key, after_key)),
        member_tail_at(s, after_key, key) == Some((d, end)),
    ensures
        member_reads(s, pos, d, end),
{
    reveal(member_reads);
    lemma_member_start_in_layout(s, pos, start, key, after_key);
}

/// A member in a layout gives the entries of its value under its name.
pub proof fn lemma_member_in_layout(
    s: Seq<char>,
    pos: int,
    start: int,
    name: Seq<Unit>,
    colon: int,
    value: int,
    d: Seq<EntryView>,
    end: int,
)
    requires
        units_ok(name),
        gap_between(s, pos, start),
        occurs_at(s, start, quoted_units(name)),
        gap_between(s, start + quoted_units(name).len(), colon),
        s[colon] == ':',
        gap_between(s, colon + 1, value),
        element_reads(s, value, d, end),
    ensures
        member_reads(s, pos, prefixed(seq![PathItemView::Key(units_value(name, 0))], d), end),
{
    let key = seq![PathItemView::Key(units_value(name, 0))];
    lemma_key_in_layout(s, start, name, colon);
    lemma_first_char(s, start, quoted_units(name));
    lemma_tail_reads_in_layout(s, colon, key, value, d, end);
    lemma_member_of_parts_in_layout(s, pos, start, key, colon, prefixed(key, d), end);
}

/// Behind separators, the further members begin with the member behind
/// them.
pub proof fn lemma_more_members_in_layout(s: Seq<char>, pos: int, comma: int, next: int)
    requires
        inline_between(s, pos, comma),
        comma < s.len(),
        s[comma] == ',',
        gap_between(s, comma + 1, next),
    ensures
        more_members_at(s, pos) == members_from(member_at(s, next), s, pos, next),
{
    lemma_separator_in_layout(s, pos, comma, next);
}

/// Behind separators, the further elements begin with the element behind
/// them.
pub proof fn lemma_more_elements_in_layout(s: Seq<char>, pos: int, comma: int, next: int)
    requires
        inline_between(s, pos, comma),
        comma < s.len(),
        s[comma] == ',',
        gap_between(s, comma + 1, next),
    ensures
        more_elements_at(s, pos) == elements_from(element_at(s, next), s, pos, next),
{
    lemma_separator_in_layout(s, pos, comma, next);
}

/// Behind separators, a member and the further members behind it are the
/// further members.
pub proof fn lemma_more_members_read_in_layout(
    s: Seq<char>,
    pos: int,
    comma: int,
    next: int,
    d: Seq<EntryView>,
    end: int,
    rest: Seq<EntryView>,
    last: int,
)
    requires
        inline_between(s, pos, comma),
        comma < s.len(),
        s[comma] == ',',
        gap_between(s, comma + 1, next),
        next < end <= s.len(),
        member_reads(s, next, d, end),
        more_members_read(s, end, rest, last),
    ensures
        more_members_read(s, pos, d + rest, last),
{
    reveal(member_reads);
    reveal(more_members_read);
    lemma_more_members_in_layout(s, pos, comma, next);
}

/// Behind separators, an element and the further elements behind it are
/// the further elements.
pub proof fn lemma_more_elements_read_in_layout(
    s: Seq<char>,
    pos: int,
    comma: int,
    next: int,
    d: Seq<EntryView>,
    end: int,
    rest: Seq<Seq<EntryView>>,
    last: int,
)
    requires
        inline_between(s, pos, comma),
        comma < s.len(),
        s[comma] == ',',
        gap_between(s, comma + 1, next),
        next < end <= s.len(),
        element_reads(s, next, d, end),
        more_elements_read(s, end, rest, last),
    ensures
        more_elements_read(s, pos, seq![d] + rest, last),
{
    reveal(element_reads);
    reveal(more_elements_read);
    lemma_more_elements_in_layout(s, pos, comma, next);
}

/// After a gap, at a closing brace, no member starts.
pub proof fn lemma_no_member_in_gap(s: Seq<char>, pos: int, to: int)
    requires
        gap_between(s, pos, to),
        s[to] == '}',
    ensures
        member_at(s, pos) is None,
{
    reveal(key_at);
    lemma_runs_in_gap(s, pos, to, pos);
    lemma_no_comment_in_gap(s, pos, to, to);
    lemma_runs_in_gap(s, pos, to, to);
    lemma_solid(s, to);
    lemma_no_inclusion(s, to);
    assert(is_structural(s[to]));
    assert(unquoted_end(s, to) == to);
}

/// In a gap before a closing brace the members end.
pub proof fn lemma_members_close_in_layout(s: Seq<char>, pos: int, to: int)
    requires
        gap_between(s, pos, to),
        s[to] == '}',
    ensures
        more_members_read(s, pos, Seq::empty(), pos),
        members_read(s, pos, Seq::empty(), pos),
{
    reveal(more_members_read);
    reveal(members_read);
    lemma_separators_in_gap(s, pos, to);
    lemma_no_member_in_gap(s, pos, to);
    lemma_no_member_in_gap(s, to, to);
}

/// In a gap before a closing bracket the further elements end.
pub proof fn lemma_elements_close_in_layout(s: Seq<char>, pos: int, to: int)
    requires
        gap_between(s, pos, to),
        s[to] == ']',
    ensures
        more_elements_read(s, pos, Seq::empty(), pos),
{
    reveal(more_elements_read);
    lemma_separators_in_gap(s, pos, to);
    crate::reading::lemma_no_element(s, to);
}

/// Members between braces in a layout, with spaces and tabs behind the
/// closing brace, give an object.
pub proof fn lemma_object_in_layout(
    s: Seq<char>,
    pos: int,
    d: Seq<EntryView>,
    mid: int,
    close: int,
    end: int,
)
    requires
        0 <= pos < mid,
        s[pos] == '{',
        members_read(s, pos + 1, d, mid),
        gap_between(s, mid, close),
        s[close] == '}',
        inline_between(s, close + 1, end),
        end < s.len(),
        s[end] == '\n' || s[end] == ',' || s[end] == '}' || s[end] == ']',
    ensures
        object_reads(s, pos, d, end),
        element_reads(s, pos, object_entries(d), end),
{
    reveal(members_read);
    reveal(object_reads);
    reveal(element_reads);
    lemma_object_parts_in_layout(s, pos, d, mid, close, end);
}

/// The parts of an object in a layout make the object.
pub proof fn lemma_object_parts_in_layout(
    s: Seq<char>,
    pos: int,
    d: Seq<EntryView>,
    mid: int,
    close: int,
    end: int,
)
    requires
        0 <= pos < mid,
        s[pos] == '{',
        members_at(s, pos + 1) == (d, mid),
        gap_between(s, mid, close),
        s[close] == '}',
        inline_between(s, close + 1, end),
        end < s.len(),
        s[end] == '\n' || s[end] == ',' || s[end] == '}' || s[end] == ']',
    ensures
        object_at(s, pos) == Some((d, end)),
        objects_at(s, pos) == Some((d, end)),
        element_at(s, pos) == Some((object_entries(d), end)),
{
    lemma_solid_chars(s[pos]);
    lemma_solid(s, pos);
    lemma_closing_in_layout(s, mid, close, '}');
    lemma_solid_chars(s[end]);
    lemma_inline_run(s, close + 1, end);
    lemma_no_substitution(s, pos);
    assert(object_at(s, pos) == Some((d, end)));
    assert(object_at(s, end) is None) by {
        lemma_inline_run(s, end, end);
    }
    assert(more_objects_at(s, end) == (Seq::<EntryView>::empty(), end));
    assert(Seq::<EntryView>::empty() + d + Seq::<EntryView>::empty() =~= d);
    assert(objects_at(s, pos) == Some((d, end)));
}

/// Elements between brackets in a layout give an array.
pub proof fn lemma_array_in_layout(
    s: Seq<char>,
    pos: int,
    first: int,
    items: Seq<Seq<EntryView>>,
    mid: int,
    close: int,
    after: int,
)
    requires
        0 <= pos,
        s[pos] == '[',
        gap_between(s, pos + 1, first),
        first <= mid,
        elements_read(s, first, items, mid),
        gap_between(s, mid, close),
        s[close] == ']',
        inline_between(s, close + 1, after),
        after < s.len(),
        s[after] == '\n' || s[after] == ',' || s[after] == '}' || s[after] == ']',
    ensures
        element_reads(s, pos, array_entries(items), close + 1),
        array_reads(s, pos, items, close + 1),
{
    reveal(elements_read);
    reveal(element_reads);
    reveal(array_reads);
    lemma_array_parts_in_layout(s, pos, first, items, mid, close, after);
}

/// The parts of an array in a layout make the array.
pub proof fn lemma_array_parts_in_layout(
    s: Seq<char>,
    pos: int,
    first: int,
    items: Seq<Seq<EntryView>>,
    mid: int,
    close: int,
    after: int,
)
    requires
        0 <= pos,
        s[pos] == '[',
        gap_between(s, pos + 1, first),
        first <= mid,
        elements_at(s, first) == (items, mid),
        gap_between(s, mid, close),
        s[close] == ']',
        inline_between(s, close + 1, after),
        after < s.len(),
        s[after] == '\n' || s[after] == ',' || s[after] == '}' || s[after] == ']',
    ensures
        array_at(s, pos) == Some((items, close + 1)),
        arrays_at(s, pos) == Some((items, close + 1)),
        element_at(s, pos) == Some((array_entries(items), close + 1)),
{
    assert(items + Seq::<Seq<EntryView>>::empty() =~= items);
    lemma_solid_chars(s[pos]);
    lemma_solid(s, pos);
    lemma_runs_in_gap(s, pos + 1, first, pos + 1);
    lemma_runs_in_gap(s, pos + 1, first, run_end(s, pos + 1, CharClass::Blank));
    lemma_closing_in_layout(s, mid, close, ']');
    lemma_no_substitution(s, pos);
    assert(array_at(s, pos) == Some((items, close + 1)));
    lemma_solid_chars(s[after]);
    lemma_inline_run(s, close + 1, after);
    assert(array_at(s, close + 1) is None);
    assert(more_arrays_at(s, close + 1) == (Seq::<Seq<EntryView>>::empty(), close + 1));
    assert(arrays_at(s, pos) == Some((items, close + 1)));
    lemma_no_objects(s, pos);
}

/// What stands behind the value of the member `i`, up to the comma or the
/// closing brace.
pub open spec fn member_follow(members: Seq<LaidMember>, close: Seq<char>, i: int) -> Seq<char> {
    if i + 1 == members.len() {
        members[i].after + close
    } else {
        members[i].after
    }
}

/// What stands behind the value of the element `i`, up to the comma or
/// the closing bracket.
pub open spec fn item_follow(items: Seq<LaidItem>, close: Seq<char>, i: int) -> Seq<char> {
    if i + 1 == items.len() {
        items[i].after + close
    } else {
        items[i].after
    }
}

/// The tree that the grammar reads from a document in a layout, where
/// `follow` stands behind the document: the value of the document, but
/// that `null` with spaces behind it is read as a word with those spaces.
pub open spec fn spelled(l: Laid, follow: Seq<char>) -> NodeView
    decreases l,
{
    match l {
        Laid::Leaf(v) => if v is Null && spaces_end(follow, 0) > 0 {
            NodeView::Leaf(
                ValueView::UnquotedString(null_word() + follow.subrange(0, spaces_end(follow, 0))),
            )
        } else {
            NodeView::Leaf(v)
        },
        Laid::Text(units) => NodeView::Leaf(ValueView::String(units_value(units, 0))),
        Laid::Hash(members, close) => NodeView::Hash(
            Seq::new(
                members.len(),
                |i: int|
                    if 0 <= i < members.len() {
                        (
                            member_name(members[i]),
                            spelled(members[i].value, member_follow(members, close, i)),
                        )
                    } else {
                        (Seq::empty(), NodeView::Hash(Seq::empty()))
                    },
            ),
        ),
        Laid::Array(items, close) => NodeView::Array(
            Seq::new(
                items.len(),
                |i: int|
                    if 0 <= i < items.len() {
                        spelled(items[i].value, item_follow(items, close, i))
                    } else {
                        NodeView::Hash(Seq::empty())
                    },
            ),
            None,
        ),
    }
}

/// The members of an object as the grammar reads them.
pub open spec fn spelled_members(members: Seq<LaidMember>, close: Seq<char>) -> Seq<
    (Seq<char>, NodeView),
> {
    Seq::new(
        members.len(),
        |i: int|
            (
                member_name(members[i]),
                spelled(members[i].value, member_follow(members, close, i)),
            ),
    )
}

/// The elements of an array as the grammar reads them.
pub open spec fn spelled_items(items: Seq<LaidItem>, close: Seq<char>) -> Seq<NodeView> {
    Seq::new(items.len(), |i: int| spelled(items[i].value, item_follow(items, close, i)))
}

/// How reading goes through objects and arrays.
pub proof fn lemma_spelled(l: Laid, follow: Seq<char>)
    ensures
        l matches Laid::Hash(members, close) ==> spelled(l, follow) == NodeView::Hash(
            spelled_members(members, close),
        ),
        l matches Laid::Array(items, close) ==> spelled(l, follow) == NodeView::Array(
            spelled_items(items, close),
            None,
        ),
{
    match l {
        Laid::Hash(members, close) => {
            assert(spelled(l, follow)->Hash_0 =~= spelled_members(members, close));
        },
        Laid::Array(items, close) => {
            assert(spelled(l, follow)->Array_0 =~= spelled_items(items, close));
        },
        _ => {},
    }
}

/// Whether the names of `members` all differ.
pub open spec fn distinct_names(members: Seq<LaidMember>) -> bool {
    forall|i: int, j: int|
        0 <= i < j < members.len() ==> member_name(#[trigger] members[i]) != member_name(
            #[trigger] members[j],
        )
}

/// Whether a document is laid out as the grammar reads JSON: its scalars
/// are null, booleans, numbers and strings, the names in an object all
/// differ, between its tokens stand spaces, tabs and newlines only, and
/// behind a value, before the comma, no newline.
pub open spec fn tidy(l: Laid) -> bool
    decreases l,
{
    match l {
        Laid::Leaf(v) => plain_leaf(v) && !(v is UnquotedString),
        Laid::Text(units) => units_ok(units),
        Laid::Hash(members, close) => is_gap(close) && distinct_names(members) && forall|i: int|
            0 <= i < members.len() ==> is_gap((#[trigger] members[i]).before) && units_ok(
                members[i].name,
            ) && is_gap(members[i].after_name) && is_gap(members[i].after_colon) && is_inline_gap(members[i].after) && tidy(
                members[i].value,
            ),
        Laid::Array(items, close) => is_gap(close) && forall|i: int|
            0 <= i < items.len() ==> is_gap((#[trigger] items[i]).before) && is_inline_gap(
                items[i].after,
            ) && tidy(items[i].value),
    }
}

/// How much of what stands behind a value the grammar takes with the
/// value: the spaces behind a scalar, the spaces and tabs behind an
/// object, and nothing behind an array.
pub open spec fn taken(l: Laid, follow: Seq<char>) -> int {
    match l {
        Laid::Leaf(_) => spaces_end(follow, 0),
        Laid::Text(_) => spaces_end(follow, 0),
        Laid::Hash(_, _) => run_end(follow, 0, CharClass::Blank),
        Laid::Array(_, _) => 0,
    }
}

/// Where a gap stands before a solid character, the text holds a gap.
pub proof fn lemma_gap_stands(s: Seq<char>, pos: int, w: Seq<char>)
    requires
        occurs_at(s, pos, w),
        is_gap(w),
        pos + w.len() < s.len(),
        solid(s[pos + w.len()]),
    ensures
        gap_between(s, pos, pos + w.len()),
{
    lemma_occurs_chars(s, pos, w);
    assert forall|i: int| pos <= i < pos + w.len() implies (#[trigger] s[i]) == ' ' || s[i] == '\t'
        || s[i] == '\n' by {
        assert(s[i] == w[i - pos]);
    }
}

/// The rest of a gap before a solid character is a gap.
pub proof fn lemma_gap_rest(s: Seq<char>, pos: int, w: Seq<char>, from: int)
    requires
        occurs_at(s, pos, w),
        is_gap(w),
        0 <= from <= w.len(),
        pos + w.len() < s.len(),
        solid(s[pos + w.len()]),
    ensures
        gap_between(s, pos + from, pos + w.len()),
{
    lemma_gap_stands(s, pos, w);
}

/// The rest of spaces and tabs is spaces and tabs.
pub proof fn lemma_inline_rest(s: Seq<char>, pos: int, w: Seq<char>, from: int)
    requires
        occurs_at(s, pos, w),
        is_inline_gap(w),
        0 <= from <= w.len(),
    ensures
        inline_between(s, pos + from, pos + w.len()),
{
    lemma_occurs_chars(s, pos, w);
    assert forall|i: int| pos + from <= i < pos + w.len() implies (#[trigger] s[i]) == ' ' || s[i]
        == '\t' by {
        assert(s[i] == w[i - pos]);
    }
}

/// The spaces at the start of a gap that stands in a text, before
/// something that is no space, are the spaces there in the text.
pub proof fn lemma_spaces_local(s: Seq<char>, pos: int, g: Seq<char>, i: int)
    requires
        occurs_at(s, pos, g),
        0 <= i <= g.len(),
        pos + g.len() < s.len(),
        s[pos + g.len()] != ' ',
    ensures
        spaces_end(s, pos + i) == pos + spaces_end(g, i),
        i <= spaces_end(g, i) <= g.len(),
    decreases g.len() - i,
{
    lemma_occurs_chars(s, pos, g);
    if i < g.len() {
        assert(s[pos + i] == g[i]);
        if g[i] == ' ' {
            lemma_spaces_local(s, pos, g, i + 1);
        }
    }
}

/// The spaces and tabs at the start of a gap that stands in a text,
/// before something that is neither, are the spaces and tabs there in the
/// text.
pub proof fn lemma_blanks_local(s: Seq<char>, pos: int, g: Seq<char>, i: int)
    requires
        occurs_at(s, pos, g),
        0 <= i <= g.len(),
        pos + g.len() < s.len(),
        !CharClass::Blank.holds(s[pos + g.len()]),
    ensures
        run_end(s, pos + i, CharClass::Blank) == pos + run_end(g, i, CharClass::Blank),
        i <= run_end(g, i, CharClass::Blank) <= g.len(),
    decreases g.len() - i,
{
    lemma_occurs_chars(s, pos, g);
    if i < g.len() {
        assert(s[pos + i] == g[i]);
        if CharClass::Blank.holds(g[i]) {
            lemma_blanks_local(s, pos, g, i + 1);
        }
    }
}

/// The characters behind which a value and what follows it end: the comma,
/// the closing brace and bracket, and the newline.
pub open spec fn closer(c: char) -> bool {
    c == ',' || c == '}' || c == ']' || c == '\n'
}

/// Behind the spaces at the start of a gap, before a closer, stands a
/// character that ends a value.
pub proof fn lemma_after_spaces(s: Seq<char>, pos: int, g: Seq<char>)
    requires
        occurs_at(s, pos, g),
        is_gap(g),
        pos + g.len() < s.len(),
        closer(s[pos + g.len()]),
    ensures
        spaces_end(s, pos) == pos + spaces_end(g, 0),
        0 <= spaces_end(g, 0) <= g.len(),
        ender(s[spaces_end(s, pos)]),
        s.subrange(pos, spaces_end(s, pos)) == g.subrange(0, spaces_end(g, 0)),
{
    lemma_spaces_local(s, pos, g, 0);
    lemma_spaces_end(g, 0);
    lemma_occurs_chars(s, pos, g);
    let k = spaces_end(g, 0);
    if k < g.len() {
        assert(s[pos + k] == g[k]);
        assert(g[k] == ' ' || g[k] == '\t' || g[k] == '\n');
    }
    assert(s.subrange(pos, pos + k) =~= g.subrange(0, k)) by {
        assert forall|i: int| 0 <= i < k implies s.subrange(pos, pos + k)[i] == g.subrange(0, k)[i] by {
            assert(s[pos + i] == g[i]);
        }
    }
}

/// Behind the spaces and tabs at the start of a gap, before a closer,
/// stands a newline or the closer.
pub proof fn lemma_after_blanks(s: Seq<char>, pos: int, g: Seq<char>)
    requires
        occurs_at(s, pos, g),
        is_gap(g),
        pos + g.len() < s.len(),
        closer(s[pos + g.len()]),
    ensures
        0 <= run_end(g, 0, CharClass::Blank) <= g.len(),
        inline_between(s, pos, pos + run_end(g, 0, CharClass::Blank)),
        closer(s[pos + run_end(g, 0, CharClass::Blank)]),
{
    lemma_blanks_local(s, pos, g, 0);
    lemma_run_end(g, 0, CharClass::Blank);
    lemma_occurs_chars(s, pos, g);
    let k = run_end(g, 0, CharClass::Blank);
    if k < g.len() {
        assert(s[pos + k] == g[k]);
        assert(g[k] == ' ' || g[k] == '\t' || g[k] == '\n');
    }
    assert forall|i: int| pos <= i < pos + k implies (#[trigger] s[i]) == ' ' || s[i] == '\t' by {
        assert(s[i] == g[i - pos]);
        assert(CharClass::Blank.holds(g[i - pos]));
        assert(g[i - pos] == ' ' || g[i - pos] == '\t' || g[i - pos] == '\n');
    }
}

/// Two texts that stand one behind the other stand there as one.
pub proof fn lemma_occurs_join(s: Seq<char>, pos: int, a: Seq<char>, b: Seq<char>)
    requires
        occurs_at(s, pos, a),
        occurs_at(s, pos + a.len(), b),
    ensures
        occurs_at(s, pos, a + b),
{
    lemma_occurs_chars(s, pos, a);
    lemma_occurs_chars(s, pos + a.len(), b);
    assert(s.subrange(pos, pos + a.len() + b.len()) =~= a + b);
}

/// Spaces and tabs are a gap, and two gaps one behind the other are one.
pub proof fn lemma_gaps_join(a: Seq<char>, b: Seq<char>)
    requires
        is_inline_gap(a) || is_gap(a),
        is_gap(b),
    ensures
        is_gap(a + b),
        is_gap(a),
{
    assert forall|i: int| 0 <= i < a.len() implies (#[trigger] a[i]) == ' ' || a[i] == '\t' || a[i]
        == '\n' by {}
    assert forall|i: int| 0 <= i < (a + b).len() implies (#[trigger] (a + b)[i]) == ' ' || (a
        + b)[i] == '\t' || (a + b)[i] == '\n' by {
        if i < a.len() {
            assert((a + b)[i] == a[i]);
        } else {
            assert((a + b)[i] == b[i - a.len()]);
        }
    }
}

/// The text of a tidy document begins with a character that a value
/// begins with.
pub proof fn lemma_laid_start(l: Laid)
    requires
        tidy(l),
    ensures
        laid_text(l).len() > 0,
        starts_value(laid_text(l)[0]),
{
    match l {
        Laid::Leaf(v) => {
            lemma_leaf_start(v);
        },
        Laid::Text(units) => {
            assert(quoted_units(units)[0] == '"');
        },
        _ => {},
    }
}

/// Where the parts of a member stand in a text that holds the member and
/// what follows it.
pub proof fn lemma_member_parts(members: Seq<LaidMember>, close: Seq<char>, from: nat, s: Seq<char>, pos: int)
    requires
        from < members.len(),
        occurs_at(s, pos, laid_member_text(members, close, from)),
    ensures
        ({
            let m = members[from as int];
            let colon = pos + quoted_units(m.name).len() + m.after_name.len();
            let value = colon + 1 + m.after_colon.len();
            let behind = value + laid_text(m.value).len();
            &&& occurs_at(s, pos, quoted_units(m.name))
            &&& occurs_at(s, pos + quoted_units(m.name).len(), m.after_name)
            &&& colon < s.len() && s[colon] == ':'
            &&& occurs_at(s, colon + 1, m.after_colon)
            &&& occurs_at(s, value, laid_text(m.value))
            &&& occurs_at(s, behind, m.after)
            &&& occurs_at(s, behind + m.after.len(), laid_members_text(members, close, from + 1))
            &&& pos + laid_member_text(members, close, from).len() == behind + m.after.len()
                + laid_members_text(members, close, from + 1).len()
        }),
{
    let m = members[from as int];
    let rest = laid_members_text(members, close, from + 1);
    let tail6 = m.after + rest;
    let tail5 = laid_text(m.value) + tail6;
    let tail4 = m.after_colon + tail5;
    let tail3 = seq![':'] + tail4;
    let tail2 = m.after_name + tail3;
    lemma_occurs_parts(s, pos, quoted_units(m.name), tail2);
    let a = pos + quoted_units(m.name).len();
    lemma_occurs_parts(s, a, m.after_name, tail3);
    let colon = a + m.after_name.len();
    lemma_occurs_parts(s, colon, seq![':'], tail4);
    lemma_first_char(s, colon, seq![':']);
    lemma_occurs_parts(s, colon + 1, m.after_colon, tail5);
    let value = colon + 1 + m.after_colon.len();
    lemma_occurs_parts(s, value, laid_text(m.value), tail6);
    lemma_occurs_parts(s, value + laid_text(m.value).len(), m.after, rest);
}

/// Where the parts of an element stand in a text that holds the element
/// and what follows it.
pub proof fn lemma_item_parts(items: Seq<LaidItem>, close: Seq<char>, from: nat, s: Seq<char>, pos: int)
    requires
        from < items.len(),
        occurs_at(s, pos, laid_item_text(items, close, from)),
    ensures
        ({
            let e = items[from as int];
            let behind = pos + laid_text(e.value).len();
            &&& occurs_at(s, pos, laid_text(e.value))
            &&& occurs_at(s, behind, e.after)
            &&& occurs_at(s, behind + e.after.len(), laid_items_text(items, close, from + 1))
            &&& pos + laid_item_text(items, close, from).len() == behind + e.after.len()
                + laid_items_text(items, close, from + 1).len()
        }),
{
    let e = items[from as int];
    let rest = laid_items_text(items, close, from + 1);
    lemma_occurs_parts(s, pos, laid_text(e.value), e.after + rest);
    lemma_occurs_parts(s, pos + laid_text(e.value).len(), e.after, rest);
}

/// Where the next member, or the closing brace, stands in the text of the
/// members from `from` on.
pub proof fn lemma_members_text_parts(
    members: Seq<LaidMember>,
    close: Seq<char>,
    from: nat,
    s: Seq<char>,
    pos: int,
)
    requires
        from <= members.len(),
        occurs_at(s, pos, laid_members_text(members, close, from)),
    ensures
        from == members.len() ==> occurs_at(s, pos, close) && pos + close.len() < s.len() && s[pos
            + close.len()] == '}' && laid_members_text(members, close, from).len() == close.len()
            + 1,
        from < members.len() ==> ({
            let m = members[from as int];
            let before = pos + comma_before(from).len();
            &&& (from > 0 ==> s[pos] == ',' && before == pos + 1)
            &&& (from == 0 ==> before == pos)
            &&& occurs_at(s, before, m.before)
            &&& occurs_at(s, before + m.before.len(), laid_member_text(members, close, from))
            &&& laid_members_text(members, close, from).len() == comma_before(from).len()
                + m.before.len() + laid_member_text(members, close, from).len()
            &&& laid_member_text(members, close, from).len() > 0
            &&& laid_member_text(members, close, from)[0] == '"'
        }),
{
    if from >= members.len() {
        lemma_occurs_parts(s, pos, close, seq!['}']);
        lemma_first_char(s, pos + close.len(), seq!['}']);
    } else {
        let m = members[from as int];
        let body = laid_member_text(members, close, from);
        lemma_occurs_parts(s, pos, comma_before(from), m.before + body);
        if from > 0 {
            lemma_first_char(s, pos, comma_before(from));
        }
        lemma_occurs_parts(s, pos + comma_before(from).len(), m.before, body);
        assert(quoted_units(m.name)[0] == '"');
        assert(body[0] == quoted_units(m.name)[0]);
    }
}

/// Where the next element, or the closing bracket, stands in the text of
/// the elements from `from` on.
pub proof fn lemma_items_text_parts(items: Seq<LaidItem>, close: Seq<char>, from: nat, s: Seq<char>, pos: int)
    requires
        from <= items.len(),
        occurs_at(s, pos, laid_items_text(items, close, from)),
    ensures
        from == items.len() ==> occurs_at(s, pos, close) && pos + close.len() < s.len() && s[pos
            + close.len()] == ']' && laid_items_text(items, close, from).len() == close.len() + 1,
        from < items.len() ==> ({
            let e = items[from as int];
            let before = pos + comma_before(from).len();
            &&& (from > 0 ==> s[pos] == ',' && before == pos + 1)
            &&& (from == 0 ==> before == pos)
            &&& occurs_at(s, before, e.before)
            &&& occurs_at(s, before + e.before.len(), laid_item_text(items, close, from))
            &&& laid_items_text(items, close, from).len() == comma_before(from).len()
                + e.before.len() + laid_item_text(items, close, from).len()
        }),
{
    if from >= items.len() {
        lemma_occurs_parts(s, pos, close, seq![']']);
        lemma_first_char(s, pos + close.len(), seq![']']);
    } else {
        let e = items[from as int];
        let body = laid_item_text(items, close, from);
        lemma_occurs_parts(s, pos, comma_before(from), e.before + body);
        if from > 0 {
            lemma_first_char(s, pos, comma_before(from));
        }
        lemma_occurs_parts(s, pos + comma_before(from).len(), e.before, body);
    }
}

/// A string in some spelling, in a layout, gives its entry.
pub proof fn lemma_text_in_layout(s: Seq<char>, pos: int, units: Seq<Unit>)
    requires
        units_ok(units),
        occurs_at(s, pos, quoted_units(units)),
        spaces_end(s, pos + quoted_units(units).len()) < s.len(),
        ender(s[spaces_end(s, pos + quoted_units(units).len())]),
    ensures
        element_reads(
            s,
            pos,
            seq![root_entry(ValueView::String(units_value(units, 0)))],
            spaces_end(s, pos + quoted_units(units).len()),
        ),
{
    reveal(element_reads);
    let w = quoted_units(units);
    let mid = pos + w.len();
    let end = spaces_end(s, mid);
    let v = ValueView::String(units_value(units, 0));
    lemma_spaces_end(s, mid);
    lemma_spelling_reads(s, pos, units);
    lemma_decoded_units(units);
    lemma_first_char(s, pos, w);
    lemma_solid_chars(s[pos]);
    assert(single_value_at(s, pos) == Some((v, mid)));
    lemma_value_before_spaces(s, pos, v, mid, end);
    lemma_element_of_value(s, pos, v, end);
}

/// What is written of a spelling holds no carriage return.
pub proof fn lemma_units_no_returns(units: Seq<Unit>, from: nat)
    requires
        units_ok(units),
    ensures
        no_returns(units_text(units, from)),
    decreases units.len() - from,
{
    if from < units.len() {
        let u = units[from as int];
        assert(unit_ok(u));
        lemma_units_no_returns(units, from + 1);
        assert(no_returns(unit_text(u))) by {
            match u {
                Unit::Raw(c) => {},
                Unit::Short(l) => {},
                Unit::Code(d) => {
                    assert forall|i: int| 0 <= i < unit_text(u).len() implies #[trigger] unit_text(
                        u,
                    )[i] != '\r' by {
                        if i >= 2 {
                            crate::spelling::lemma_hex_digit(d[i - 2]);
                        }
                    }
                },
                Unit::Pair(h, l) => {
                    assert forall|i: int| 0 <= i < unit_text(u).len() implies #[trigger] unit_text(
                        u,
                    )[i] != '\r' by {
                        if 2 <= i < 6 {
                            crate::spelling::lemma_hex_digit(h[i - 2]);
                        } else if i >= 8 {
                            crate::spelling::lemma_hex_digit(l[i - 8]);
                        }
                    }
                },
            }
        }
        lemma_no_returns_joined(unit_text(u), units_text(units, from + 1));
    }
}

/// A spelling in quotes holds no carriage return.
pub proof fn lemma_spelling_no_returns(units: Seq<Unit>)
    requires
        units_ok(units),
    ensures
        no_returns(quoted_units(units)),
{
    lemma_units_no_returns(units, 0);
    lemma_no_returns_joined(seq!['"'], units_text(units, 0));
    lemma_no_returns_joined(seq!['"'] + units_text(units, 0), seq!['"']);
}

/// The text of a tidy document, with a gap and a closer behind it, gives
/// the entries of the tree that is read from it, and is read up to where
/// the grammar takes what follows with the value.
pub proof fn lemma_laid_reads(l: Laid, follow: Seq<char>, s: Seq<char>, pos: int)
    requires
        tidy(l),
        is_gap(follow),
        occurs_at(s, pos, laid_text(l) + follow),
        pos + laid_text(l).len() + follow.len() < s.len(),
        closer(s[pos + laid_text(l).len() + follow.len()]),
    ensures
        0 <= taken(l, follow) <= follow.len(),
        element_reads(
            s,
            pos,
            flat(spelled(l, follow)),
            pos + laid_text(l).len() + taken(l, follow),
        ),
        l matches Laid::Hash(members, close) ==> object_reads(
            s,
            pos,
            flat_members(spelled_members(members, close), 0),
            pos + laid_text(l).len() + taken(l, follow),
        ),
        l matches Laid::Array(items, close) ==> array_reads(
            s,
            pos,
            flat_items(spelled_items(items, close)),
            pos + laid_text(l).len(),
        ),
    decreases l, 2nat,
{
    let text = laid_text(l);
    lemma_occurs_parts(s, pos, text, follow);
    let behind = pos + text.len();
    lemma_spelled(l, follow);
    match l {
        Laid::Leaf(v) => {
            lemma_after_spaces(s, behind, follow);
            lemma_leaf_in_layout(s, pos, v);
        },
        Laid::Text(units) => {
            lemma_after_spaces(s, behind, follow);
            lemma_text_in_layout(s, pos, units);
        },
        Laid::Hash(members, close) => {
            let inner = laid_members_text(members, close, 0);
            lemma_occurs_parts(s, pos, seq!['{'], inner);
            lemma_first_char(s, pos, seq!['{']);
            lemma_members_text_parts(members, close, 0, s, pos + 1);
            let brace = behind - 1;
            lemma_solid_chars('}');
            let read = spelled_members(members, close);
            let mid: int;
            if members.len() == 0 {
                lemma_gap_stands(s, pos + 1, close);
                lemma_members_close_in_layout(s, pos + 1, brace);
                mid = pos + 1;
            } else {
                let start = pos + 1 + members[0].before.len();
                lemma_first_char(s, start, laid_member_text(members, close, 0));
                lemma_solid_chars(s[start]);
                lemma_gap_stands(s, pos + 1, members[0].before);
                let r = lemma_laid_member(members, close, 0, s, pos + 1, start);
                lemma_members_read(
                    s,
                    pos + 1,
                    prefixed(seq![PathItemView::Key(read[0].0)], flat(read[0].1)),
                    r.0,
                    flat_members(read, 1),
                    r.1,
                );
                mid = r.1;
            }
            lemma_after_blanks(s, behind, follow);
            lemma_object_in_layout(
                s,
                pos,
                flat_members(read, 0),
                mid,
                brace,
                behind + taken(l, follow),
            );
        },
        Laid::Array(items, close) => {
            let inner = laid_items_text(items, close, 0);
            lemma_occurs_parts(s, pos, seq!['['], inner);
            lemma_first_char(s, pos, seq!['[']);
            lemma_items_text_parts(items, close, 0, s, pos + 1);
            let bracket = behind - 1;
            lemma_solid_chars(']');
            let read = spelled_items(items, close);
            let all = flat_items(read);
            lemma_flat_elements(read, 0);
            lemma_after_blanks(s, behind, follow);
            let after = behind + run_end(follow, 0, CharClass::Blank);
            if items.len() == 0 {
                lemma_gap_stands(s, pos + 1, close);
                lemma_elements_end_read(s, bracket);
                assert(all =~= Seq::empty());
                lemma_solid(s, bracket);
                lemma_array_in_layout(s, pos, bracket, all, bracket, bracket, after);
            } else {
                let start = pos + 1 + items[0].before.len();
                lemma_laid_start(items[0].value);
                lemma_first_char(s, start, laid_item_text(items, close, 0));
                assert(laid_item_text(items, close, 0)[0] == laid_text(items[0].value)[0]);
                lemma_solid_chars(s[start]);
                lemma_gap_stands(s, pos + 1, items[0].before);
                let r = lemma_laid_item(items, close, 0, s, start);
                assert(seq![flat(read[0])] + all.subrange(1, all.len() as int) =~= all);
                lemma_elements_read(
                    s,
                    start,
                    flat(read[0]),
                    r.0,
                    all.subrange(1, all.len() as int),
                    r.1,
                );
                lemma_array_in_layout(s, pos, start, all, r.1, bracket, after);
            }
        },
    }
}

/// The member `from` of an object in a layout, after a gap, gives the
/// entries of its value under its name; the members behind it give
/// theirs; and behind the last of them a gap leads to the closing brace.
/// The result is where the member ends and where the last one does.
pub proof fn lemma_laid_member(
    members: Seq<LaidMember>,
    close: Seq<char>,
    from: nat,
    s: Seq<char>,
    pos: int,
    start: int,
) -> (r: (int, int))
    requires
        tidy(Laid::Hash(members, close)),
        from < members.len(),
        gap_between(s, pos, start),
        occurs_at(s, start, laid_member_text(members, close, from)),
    ensures
        start < r.0 <= r.1,
        r.0 <= s.len(),
        member_reads(
            s,
            pos,
            prefixed(
                seq![PathItemView::Key(member_name(members[from as int]))],
                flat(spelled_members(members, close)[from as int].1),
            ),
            r.0,
        ),
        more_members_read(s, r.0, flat_members(spelled_members(members, close), from + 1), r.1),
        gap_between(s, r.1, start + laid_member_text(members, close, from).len() - 1),
        s[start + laid_member_text(members, close, from).len() - 1] == '}',
    decreases members, members.len() - from, 1nat,
{
    let m = members[from as int];
    let read = spelled_members(members, close);
    let follow = member_follow(members, close, from as int);
    lemma_member_parts(members, close, from, s, start);
    let colon = start + quoted_units(m.name).len() + m.after_name.len();
    let value = colon + 1 + m.after_colon.len();
    let behind = value + laid_text(m.value).len();
    let next = behind + m.after.len();
    lemma_members_text_parts(members, close, from + 1, s, next);
    lemma_solid_chars(':');
    lemma_solid_chars('}');
    lemma_gap_stands(s, start + quoted_units(m.name).len(), m.after_name);
    lemma_laid_start(m.value);
    lemma_first_char(s, value, laid_text(m.value));
    lemma_solid_chars(s[value]);
    lemma_gap_stands(s, colon + 1, m.after_colon);
    assert(tidy(m.value));
    if from + 1 < members.len() {
        let after = members[from + 1 as int];
        lemma_gaps_join(m.after, Seq::empty());
        lemma_occurs_join(s, value, laid_text(m.value), m.after);
        lemma_laid_reads(m.value, follow, s, value);
        let end = behind + taken(m.value, follow);
        lemma_member_in_layout(s, pos, start, m.name, colon, value, flat(read[from as int].1), end);
        let key = next + 1 + after.before.len();
        lemma_first_char(s, key, laid_member_text(members, close, from + 1));
        lemma_solid_chars(s[key]);
        lemma_gap_stands(s, next + 1, after.before);
        let r = lemma_laid_member(members, close, from + 1, s, key, key);
        lemma_inline_rest(s, behind, m.after, taken(m.value, follow));
        lemma_more_members_read_in_layout(
            s,
            end,
            next,
            key,
            prefixed(seq![PathItemView::Key(member_name(after))], flat(read[from + 1 as int].1)),
            r.0,
            flat_members(read, from + 2),
            r.1,
        );
        (end, r.1)
    } else {
        lemma_gaps_join(m.after, close);
        lemma_occurs_join(s, behind, m.after, close);
        lemma_occurs_join(s, value, laid_text(m.value), follow);
        lemma_laid_reads(m.value, follow, s, value);
        let end = behind + taken(m.value, follow);
        lemma_member_in_layout(s, pos, start, m.name, colon, value, flat(read[from as int].1), end);
        lemma_gap_rest(s, behind, follow, taken(m.value, follow));
        lemma_members_close_in_layout(s, end, next + close.len());
        (end, end)
    }
}

/// The element `from` of an array in a layout gives the entries of its
/// value; the elements behind it give theirs; and behind the last of them
/// a gap leads to the closing bracket. The result is where the element
/// ends and where the last one does.
pub proof fn lemma_laid_item(
    items: Seq<LaidItem>,
    close: Seq<char>,
    from: nat,
    s: Seq<char>,
    start: int,
) -> (r: (int, int))
    requires
        tidy(Laid::Array(items, close)),
        from < items.len(),
        0 <= start,
        occurs_at(s, start, laid_item_text(items, close, from)),
    ensures
        start < r.0 <= r.1,
        r.0 <= s.len(),
        element_reads(s, start, flat(spelled_items(items, close)[from as int]), r.0),
        more_elements_read(
            s,
            r.0,
            flat_items(spelled_items(items, close)).subrange(from + 1 as int, items.len() as int),
            r.1,
        ),
        gap_between(s, r.1, start + laid_item_text(items, close, from).len() - 1),
        s[start + laid_item_text(items, close, from).len() - 1] == ']',
    decreases items, items.len() - from, 1nat,
{
    let e = items[from as int];
    let read = spelled_items(items, close);
    let all = flat_items(read);
    let follow = item_follow(items, close, from as int);
    lemma_item_parts(items, close, from, s, start);
    let behind = start + laid_text(e.value).len();
    let next = behind + e.after.len();
    lemma_items_text_parts(items, close, from + 1, s, next);
    lemma_solid_chars(']');
    lemma_laid_start(e.value);
    assert(tidy(e.value));
    if from + 1 < items.len() {
        let after = items[from + 1 as int];
        lemma_gaps_join(e.after, Seq::empty());
        lemma_occurs_join(s, start, laid_text(e.value), e.after);
        lemma_laid_reads(e.value, follow, s, start);
        let end = behind + taken(e.value, follow);
        let value = next + 1 + after.before.len();
        lemma_laid_start(after.value);
        lemma_first_char(s, value, laid_item_text(items, close, from + 1));
        assert(laid_item_text(items, close, from + 1)[0] == laid_text(after.value)[0]);
        lemma_solid_chars(s[value]);
        lemma_gap_stands(s, next + 1, after.before);
        let r = lemma_laid_item(items, close, from + 1, s, value);
        lemma_inline_rest(s, behind, e.after, taken(e.value, follow));
        let tail = all.subrange(from + 2 as int, items.len() as int);
        lemma_more_elements_read_in_layout(s, end, next, value, flat(read[from + 1 as int]), r.0, tail, r.1);
        assert(seq![flat(read[from + 1 as int])] + tail =~= all.subrange(from + 1 as int, items.len() as int));
        (end, r.1)
    } else {
        lemma_gaps_join(e.after, close);
        lemma_occurs_join(s, behind, e.after, close);
        lemma_occurs_join(s, start, laid_text(e.value), follow);
        lemma_laid_reads(e.value, follow, s, start);
        let end = behind + taken(e.value, follow);
        lemma_gap_rest(s, behind, follow, taken(e.value, follow));
        lemma_elements_close_in_layout(s, end, next + close.len());
        assert(all.subrange(from + 1 as int, items.len() as int) =~= Seq::empty());
        (end, end)
    }
}

/// The members of an object with their values.
pub open spec fn laid_member_values(members: Seq<LaidMember>) -> Seq<(Seq<char>, NodeView)> {
    Seq::new(members.len(), |i: int| (member_name(members[i]), laid_value(members[i].value)))
}

/// The elements of an array with their values.
pub open spec fn laid_item_values(items: Seq<LaidItem>) -> Seq<NodeView> {
    Seq::new(items.len(), |i: int| laid_value(items[i].value))
}

/// How the value of a document goes through objects and arrays.
pub proof fn lemma_laid_value(l: Laid)
    ensures
        l matches Laid::Hash(members, close) ==> laid_value(l) == NodeView::Hash(
            laid_member_values(members),
        ),
        l matches Laid::Array(items, close) ==> laid_value(l) == NodeView::Array(
            laid_item_values(items),
            None,
        ),
{
    match l {
        Laid::Hash(members, close) => {
            assert(laid_value(l)->Hash_0 =~= laid_member_values(members));
        },
        Laid::Array(items, close) => {
            assert(laid_value(l)->Array_0 =~= laid_item_values(items));
        },
        _ => {},
    }
}

/// The word `null` with spaces behind it stands for null.
pub proof fn lemma_null_with_spaces(sp: Seq<char>)
    requires
        forall|i: int| 0 <= i < sp.len() ==> (#[trigger] sp[i]) == ' ',
    ensures
        trimmed(null_word() + sp) == null_word(),
{
    let t = null_word() + sp;
    assert(t[0] == 'n' && t[3] == 'l');
    assert(trim_start(t, 0, t.len() as int) == 0);
    assert forall|i: int| 4 <= i < t.len() implies (#[trigger] t[i]) == ' ' by {
        assert(t[i] == sp[i - 4]);
    }
    lemma_trim_spaces(t, 4);
    assert(t.subrange(0, 4) =~= null_word());
}

/// The tree that is read from a tidy document is a plain tree.
pub proof fn lemma_spelled_plain(l: Laid, follow: Seq<char>)
    requires
        tidy(l),
    ensures
        plain_tree(spelled(l, follow)),
    decreases l,
{
    lemma_spelled(l, follow);
    match l {
        Laid::Leaf(v) => {
            if v is Null && spaces_end(follow, 0) > 0 {
                lemma_spaces_end(follow, 0);
                let sp = follow.subrange(0, spaces_end(follow, 0));
                assert forall|i: int| 0 <= i < sp.len() implies (#[trigger] sp[i]) == ' ' by {
                    assert(sp[i] == follow[i]);
                }
                lemma_null_with_spaces(sp);
            }
        },
        Laid::Text(units) => {},
        Laid::Hash(members, close) => {
            let read = spelled_members(members, close);
            assert forall|i: int| 0 <= i < read.len() implies plain_tree(
                (#[trigger] read[i]).1,
            ) by {
                assert(tidy(members[i].value));
                lemma_spelled_plain(members[i].value, member_follow(members, close, i));
            }
            assert(distinct_keys(read)) by {
                assert forall|i: int, j: int| 0 <= i < j < read.len() implies (#[trigger] read[i]).0
                    != (#[trigger] read[j]).0 by {
                    assert(member_name(members[i]) != member_name(members[j]));
                }
            }
        },
        Laid::Array(items, close) => {
            let read = spelled_items(items, close);
            assert forall|i: int| 0 <= i < read.len() implies plain_tree(#[trigger] read[i]) by {
                assert(tidy(items[i].value));
                lemma_spelled_plain(items[i].value, item_follow(items, close, i));
            }
        },
    }
}

/// The tree that is read from a tidy document projects to the value of
/// the document.
pub proof fn lemma_spelled_value(l: Laid, follow: Seq<char>)
    requires
        tidy(l),
    ensures
        projected(as_read(spelled(l, follow))) == projected(laid_value(l)),
    decreases l,
{
    lemma_spelled(l, follow);
    lemma_laid_value(l);
    lemma_as_read(spelled(l, follow));
    match l {
        Laid::Leaf(v) => {
            if v is Null && spaces_end(follow, 0) > 0 {
                lemma_spaces_end(follow, 0);
                let sp = follow.subrange(0, spaces_end(follow, 0));
                assert forall|i: int| 0 <= i < sp.len() implies (#[trigger] sp[i]) == ' ' by {
                    assert(sp[i] == follow[i]);
                }
                lemma_null_with_spaces(sp);
            }
        },
        Laid::Text(units) => {},
        Laid::Hash(members, close) => {
            let read = members_as_read(spelled_members(members, close));
            let values = laid_member_values(members);
            assert forall|i: int| 0 <= i < members.len() implies read[i].0 == values[i].0
                && projected(read[i].1) == projected(values[i].1) by {
                assert(tidy(members[i].value));
                lemma_spelled_value(members[i].value, member_follow(members, close, i));
            }
            assert(projected(NodeView::Hash(read))->Hash_0 =~= projected(
                NodeView::Hash(values),
            )->Hash_0);
        },
        Laid::Array(items, close) => {
            let read = items_as_read(spelled_items(items, close));
            let values = laid_item_values(items);
            assert forall|i: int| 0 <= i < items.len() implies projected(read[i]) == projected(
                values[i],
            ) by {
                assert(tidy(items[i].value));
                lemma_spelled_value(items[i].value, item_follow(items, close, i));
            }
            assert(projected(NodeView::Array(read, crate::roundtrip::last_index(items.len())))->Array_0
                =~= projected(NodeView::Array(values, None))->Array_0);
        },
    }
}

/// A gap holds no carriage return.
pub proof fn lemma_gap_no_returns(w: Seq<char>)
    requires
        is_gap(w) || is_inline_gap(w),
    ensures
        no_returns(w),
{
    assert forall|i: int| 0 <= i < w.len() implies #[trigger] w[i] != '\r' by {}
}

/// The text of a tidy document holds no carriage return.
pub proof fn lemma_laid_no_returns(l: Laid)
    requires
        tidy(l),
    ensures
        no_returns(laid_text(l)),
    decreases l, 2nat,
{
    match l {
        Laid::Leaf(v) => {
            lemma_leaf_no_returns(v);
        },
        Laid::Text(units) => {
            lemma_spelling_no_returns(units);
        },
        Laid::Hash(members, close) => {
            lemma_laid_members_no_returns(members, close, 0);
            lemma_no_returns_joined(seq!['{'], laid_members_text(members, close, 0));
        },
        Laid::Array(items, close) => {
            lemma_laid_items_no_returns(items, close, 0);
            lemma_no_returns_joined(seq!['['], laid_items_text(items, close, 0));
        },
    }
}

/// The text of the members of a tidy object holds no carriage return.
pub proof fn lemma_laid_members_no_returns(members: Seq<LaidMember>, close: Seq<char>, from: nat)
    requires
        tidy(Laid::Hash(members, close)),
    ensures
        no_returns(laid_members_text(members, close, from)),
    decreases members, members.len() - from, 1nat,
{
    if from >= members.len() {
        lemma_gap_no_returns(close);
        lemma_no_returns_joined(close, seq!['}']);
    } else {
        let m = members[from as int];
        assert(tidy(m.value));
        lemma_laid_members_no_returns(members, close, from + 1);
        lemma_laid_no_returns(m.value);
        lemma_spelling_no_returns(m.name);
        lemma_gap_no_returns(m.before);
        lemma_gap_no_returns(m.after_name);
        lemma_gap_no_returns(m.after_colon);
        lemma_gap_no_returns(m.after);
        let tail6 = m.after + laid_members_text(members, close, from + 1);
        lemma_no_returns_joined(m.after, laid_members_text(members, close, from + 1));
        let tail5 = laid_text(m.value) + tail6;
        lemma_no_returns_joined(laid_text(m.value), tail6);
        let tail4 = m.after_colon + tail5;
        lemma_no_returns_joined(m.after_colon, tail5);
        let tail3 = seq![':'] + tail4;
        lemma_no_returns_joined(seq![':'], tail4);
        let tail2 = m.after_name + tail3;
        lemma_no_returns_joined(m.after_name, tail3);
        lemma_no_returns_joined(quoted_units(m.name), tail2);
        let body = laid_member_text(members, close, from);
        lemma_no_returns_joined(m.before, body);
        lemma_no_returns_joined(comma_before(from), m.before + body);
    }
}

/// The text of the elements of a tidy array holds no carriage return.
pub proof fn lemma_laid_items_no_returns(items: Seq<LaidItem>, close: Seq<char>, from: nat)
    requires
        tidy(Laid::Array(items, close)),
    ensures
        no_returns(laid_items_text(items, close, from)),
    decreases items, items.len() - from, 1nat,
{
    if from >= items.len() {
        lemma_gap_no_returns(close);
        lemma_no_returns_joined(close, seq![']']);
    } else {
        let e = items[from as int];
        assert(tidy(e.value));
        lemma_laid_items_no_returns(items, close, from + 1);
        lemma_laid_no_returns(e.value);
        lemma_gap_no_returns(e.before);
        lemma_gap_no_returns(e.after);
        let tail2 = e.after + laid_items_text(items, close, from + 1);
        lemma_no_returns_joined(e.after, laid_items_text(items, close, from + 1));
        lemma_no_returns_joined(laid_text(e.value), tail2);
        let body = laid_item_text(items, close, from);
        lemma_no_returns_joined(e.before, body);
        lemma_no_returns_joined(comma_before(from), e.before + body);
    }
}

/// Whether `w` holds nothing but newlines.
pub open spec fn is_newlines(w: Seq<char>) -> bool {
    forall|i: int| 0 <= i < w.len() ==> (#[trigger] w[i]) == '\n'
}

/// Before newlines and the character with code 0 that end a text stand no
/// comments, and behind them stands nothing.
pub proof fn lemma_lines_end(s: Seq<char>, end: int)
    requires
        0 <= end < s.len() - 1,
        forall|i: int| end <= i < s.len() - 1 ==> (#[trigger] s[i]) == '\n',
        s[s.len() - 1] == '\0',
    ensures
        after_comments(s, end) == end,
        only_line_ends(s, end),
{
    let last = s.len() - 1;
    lemma_run_exact(s, end, last, CharClass::Newline);
    assert(run_end(s, last, CharClass::Blank) == last);
    assert(comment_end(s, last) is None);
    assert(comment_block_end(s, end) is None);
}

/// Whether `c` is a space, a tab or a newline.
pub open spec fn is_gap_char(c: char) -> bool {
    c == ' ' || c == '\t' || c == '\n'
}

/// In spaces, tabs and newlines before the character with code 0 that ends
/// a text stand no comments.
pub proof fn lemma_gap_end(s: Seq<char>, end: int)
    requires
        0 <= end < s.len() - 1,
        forall|i: int| end <= i < s.len() - 1 ==> is_gap_char(#[trigger] s[i]),
        s[s.len() - 1] == '\0',
    ensures
        after_comments(s, end) == end,
{
    let last = s.len() - 1;
    lemma_run_end(s, end, CharClass::Newline);
    let a = run_end(s, end, CharClass::Newline);
    assert(a <= last) by {
        if a > last {
            assert(CharClass::Newline.holds(s[last]));
        }
    }
    lemma_run_end(s, a, CharClass::Blank);
    let b = run_end(s, a, CharClass::Blank);
    assert(b <= last) by {
        if b > last {
            assert(CharClass::Blank.holds(s[last]));
        }
    }
    assert(s[b] == '\n' || s[b] == '\0') by {
        if b < last {
            assert(is_gap_char(s[b]));
        }
    }
    assert(comment_end(s, b) is None);
    assert(comment_block_end(s, end) is None);
}

/// A text of spaces and tabs is a run of them.
pub proof fn lemma_all_blanks(w: Seq<char>, from: int)
    requires
        is_inline_gap(w),
        0 <= from <= w.len(),
    ensures
        run_end(w, from, CharClass::Blank) == w.len(),
    decreases w.len() - from,
{
    if from < w.len() {
        assert(w[from] == ' ' || w[from] == '\t');
        lemma_all_blanks(w, from + 1);
    }
}

/// The text `w` with a newline for each carriage return.
pub open spec fn with_newlines(w: Seq<char>) -> Seq<char> {
    Seq::new(
        w.len(),
        |i: int|
            if w[i] == '\r' {
                '\n'
            } else {
                w[i]
            },
    )
}

/// A JSON document whose root is an object or an array, in any tidy
/// layout, loads to its value.
///
/// The document holds null, booleans, numbers as the grammar writes them,
/// strings, arrays and objects in which every name is used once. Between
/// its tokens stand spaces, tabs and line ends; behind a value, before the
/// comma that follows it, stand spaces and tabs only. Before the document
/// stand spaces and tabs. Behind it stand spaces and tabs and then, from a
/// line end on, whatever may stand between tokens; for a strict loader,
/// line ends only. A line end is a newline or a carriage return: `text` is
/// the document with either, and the layout `l` holds a newline for each.
/// Then the grammar reads the text, and the document that it yields loads
/// to the value of the document.
pub proof fn lemma_laid_document_loads(
    text: Seq<char>,
    l: Laid,
    lead: Seq<char>,
    trail: Seq<char>,
    rest: Seq<char>,
    config: HoconLoaderConfigView,
    tag: Seq<char>,
)
    requires
        tidy(l),
        l is Hash || l is Array,
        is_inline_gap(lead),
        is_inline_gap(trail),
        is_gap(rest),
        rest.len() > 0 ==> rest[0] == '\n',
        config.strict ==> is_newlines(rest),
        with_newlines(text) == lead + laid_text(l) + trail + rest,
    ensures
        parsed_text(config, text, tag) == Ok::<Seq<EntryView>, ErrorView>(
            flat(spelled(l, trail)),
        ),
        loaded(flat(spelled(l, trail)), config.strict) == Ok::<HoconView, ErrorView>(
            projected(laid_value(l)),
        ),
{
    let s = with_newlines(text) + seq!['\n', '\0'];
    assert(terminated(text) =~= s);
    lemma_laid_text_reads(l, lead, trail, rest, s);
    let tree = spelled(l, trail);
    lemma_spelled_plain(l, trail);
    lemma_flat_settled(tree);
    lemma_stamped_settled(flat(tree), tag, config.include_depth, base_directory(config));
    lemma_resolved_flat(tree);
    lemma_spelled_value(l, trail);
    lemma_as_read_plain(tree);
    lemma_plain_has_no_failure(as_read(tree));
}

/// The text of a tidy object or array between spaces and tabs, with a gap
/// that starts at a newline behind it and the character with code 0 at its
/// end, is read as the document of the object or array, up to the gap.
pub proof fn lemma_laid_text_reads(
    l: Laid,
    lead: Seq<char>,
    trail: Seq<char>,
    rest: Seq<char>,
    s: Seq<char>,
)
    requires
        tidy(l),
        l is Hash || l is Array,
        is_inline_gap(lead),
        is_inline_gap(trail),
        is_gap(rest),
        rest.len() > 0 ==> rest[0] == '\n',
        s == lead + laid_text(l) + trail + rest + seq!['\n', '\0'],
    ensures
        crate::grammar::root_at(s, 0) == Some(
            (flat(spelled(l, trail)), (lead.len() + laid_text(l).len() + trail.len()) as int),
        ),
        is_newlines(rest) ==> only_line_ends(
            s,
            (lead.len() + laid_text(l).len() + trail.len()) as int,
        ),
{
    let start = lead.len() as int;
    let body = laid_text(l) + trail;
    let end = start + body.len();
    lemma_document_parts(lead, laid_text(l), trail, rest, s);
    lemma_gaps_join(trail, Seq::empty());
    lemma_laid_reads(l, trail, s, start);
    lemma_all_blanks(trail, 0);
    lemma_gap_end(s, end);
    if is_newlines(rest) {
        lemma_lines_end(s, end);
    }
    lemma_spelled(l, trail);
    match l {
        Laid::Hash(members, close) => {
            assert(laid_text(l)[0] == '{');
            lemma_first_char(s, start, body);
            lemma_document_reads(s, start, flat_members(spelled_members(members, close), 0), end);
        },
        Laid::Array(items, close) => {
            assert(laid_text(l)[0] == '[');
            lemma_first_char(s, start, body);
            let read = spelled_items(items, close);
            lemma_flat_elements(read, 0);
            lemma_array_document_reads(
                s,
                start,
                flat_items(read),
                start + laid_text(l).len(),
                end,
            );
        },
        _ => {},
    }
}

/// The parts of a text that is made of spaces and tabs, a document, spaces
/// and tabs, a gap that starts at a newline, a newline and the character
/// with code 0.
pub proof fn lemma_document_parts(
    lead: Seq<char>,
    text: Seq<char>,
    trail: Seq<char>,
    rest: Seq<char>,
    s: Seq<char>,
)
    requires
        is_inline_gap(lead),
        is_inline_gap(trail),
        is_gap(rest),
        rest.len() > 0 ==> rest[0] == '\n',
        s == lead + text + trail + rest + seq!['\n', '\0'],
    ensures
        s.len() == lead.len() + text.len() + trail.len() + rest.len() + 2,
        inline_between(s, 0, lead.len() as int),
        inline_between(
            s,
            (lead.len() + text.len()) as int,
            (lead.len() + text.len() + trail.len()) as int,
        ),
        occurs_at(s, lead.len() as int, text + trail),
        s[(lead.len() + text.len() + trail.len()) as int] == '\n',
        forall|i: int|
            lead.len() + text.len() + trail.len() <= i < s.len() - 1 ==> is_gap_char(
                #[trigger] s[i],
            ),
        is_newlines(rest) ==> forall|i: int|
            lead.len() + text.len() + trail.len() <= i < s.len() - 1 ==> (#[trigger] s[i]) == '\n',
        s[s.len() - 1] == '\0',
{
    let start = lead.len() as int;
    let body = text + trail;
    let end = start + body.len();
    assert(s =~= lead + body + rest + seq!['\n', '\0']);
    assert(s.subrange(start, end) =~= body);
    assert forall|i: int| 0 <= i < start implies (#[trigger] s[i]) == ' ' || s[i] == '\t' by {
        assert(s[i] == lead[i]);
    }
    assert forall|i: int| start + text.len() <= i < end implies (#[trigger] s[i]) == ' ' || s[i]
        == '\t' by {
        assert(s[i] == trail[i - start - text.len()]);
    }
    assert forall|i: int| end <= i < s.len() - 1 implies is_gap_char(#[trigger] s[i]) by {
        if i < s.len() - 2 {
            assert(s[i] == rest[i - end]);
        }
    }
    if is_newlines(rest) {
        assert forall|i: int| end <= i < s.len() - 1 implies (#[trigger] s[i]) == '\n' by {
            if i < s.len() - 2 {
                assert(s[i] == rest[i - end]);
            }
        }
    }
    if rest.len() > 0 {
        assert(s[end] == rest[0]);
    }
}

/// An array that stands behind spaces and tabs at the start of a text,
/// with spaces and tabs behind it and then the newlines and the character
/// with code 0 at the end of the text, is the document of the text.
pub proof fn lemma_array_document_reads(
    s: Seq<char>,
    bracket: int,
    d: Seq<Seq<EntryView>>,
    mid: int,
    end: int,
)
    requires
        0 <= bracket < s.len(),
        inline_between(s, 0, bracket),
        s[bracket] == '[',
        array_reads(s, bracket, d, mid),
        inline_between(s, mid, end),
        end < s.len(),
        s[end] == '\n',
        after_comments(s, end) == end,
    ensures
        crate::grammar::root_at(s, 0) == Some((array_entries(d), end)),
{
    reveal(array_reads);
    lemma_solid_chars(s[bracket]);
    lemma_solid(s, bracket);
    lemma_inline_run(s, 0, bracket);
    lemma_run_exact(s, 0, 0, CharClass::Newline);
    lemma_no_inclusion(s, bracket);
    lemma_inline_run(s, mid, end);
    assert(after_comments(s, 0) == 0);
    assert(array_at(s, 0) == array_at(s, bracket));
}

/// An object that stands behind spaces and tabs at the start of a text and
/// fills it up to the newlines and the character with code 0 at its end is
/// the document of the text.
pub proof fn lemma_document_reads(s: Seq<char>, brace: int, d: Seq<EntryView>, end: int)
    requires
        0 <= brace < s.len(),
        inline_between(s, 0, brace),
        s[brace] == '{',
        object_reads(s, brace, d, end),
        after_comments(s, end) == end,
    ensures
        crate::grammar::root_at(s, 0) == Some((object_entries(d), end)),
{
    reveal(object_reads);
    lemma_solid_chars(s[brace]);
    lemma_solid(s, brace);
    lemma_inline_run(s, 0, brace);
    lemma_run_exact(s, 0, 0, CharClass::Newline);
    lemma_no_inclusion(s, brace);
    assert(after_comments(s, 0) == 0);
    assert(root_members_at(s, 0) is None);
    assert(object_at(s, 0) == object_at(s, brace));
}

} // verus!
