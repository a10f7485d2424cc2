//! Reading what was written. The shortest text of a plain tree, read by
//! the grammar, gives the entries of the tree.

use crate::document::{array_entries, object_entries, prefixed, root_entry};
use crate::escapes::{lemma_decoded_escaped, lemma_quoted_reads};
use crate::grammar::{
    array_at, arrays_at, boolean_at, char_at, closing_end, element_at, elements_at, inclusion_at,
    inclusion_keyword, key_at, member_at, member_of, member_tail_at, members_at, more_arrays_at,
    more_elements_at, more_members_at, more_objects_at, number_at, object_at, objects_at,
    separators_end, single_value_at, substitution_at, tokens_at, value_at,
};
use crate::number_text::{digits_start, lemma_reads_real, number_char, real_text};
use crate::render::{digit_char, integer_text, natural_text};
use crate::roundtrip::{
    final_tree, flat, flat_items, flat_members, leaf_value, lemma_flat_elements, plain_leaf,
    plain_tree,
};
use crate::value::{EntryView, PathItemView, PathView};
use crate::words::key_path;
use crate::unescape::decoded;
use crate::scan::{
    after_comments, comment_block_end, comment_end, digits_value, exponent_end, fraction_end,
    lemma_run_end, integer_of, is_structural, multiline_string_at, number_end, number_is_whole,
    quoted_string_at, run_end, unquoted_end, CharClass,
};
use crate::text::{
    lemma_first_char, lemma_occurs_chars, lemma_occurs_parts, lemma_occurs_three, occurs_at,
};
use crate::tree::NodeView;
use crate::value::ValueView;
use crate::write::{comma_before, quoted, written, written_items, written_leaf, written_members};
use vstd::prelude::*;

verus! {

/// The characters that follow a value in the shortest text: the comma, the
/// closing brace and bracket, and the newline at the end of the text.
pub open spec fn stopper(c: char) -> bool {
    c == ',' || c == '}' || c == ']' || c == '\n'
}

/// The characters that are neither space nor the start of a comment.
pub open spec fn solid(c: char) -> bool {
    !CharClass::Space.holds(c) && c != '#' && c != '/'
}

/// The characters that a value begins with in the shortest text.
pub open spec fn starts_value(c: char) -> bool {
    c == '"' || c == '{' || c == '[' || c == '-' || CharClass::Digit.holds(c) || c == 't' || c
        == 'f' || c == 'n'
}

/// Whether `w` stands in `s` at `pos` and a stopper follows it.
pub open spec fn stops_after(s: Seq<char>, pos: int, w: Seq<char>) -> bool {
    occurs_at(s, pos, w) && pos + w.len() < s.len() && stopper(s[pos + w.len()])
}

/// A run that meets no character of its class ends where it starts.
pub proof fn lemma_run_stays(s: Seq<char>, pos: int, class: CharClass)
    requires
        0 <= pos < s.len() ==> !class.holds(s[pos]),
    ensures
        run_end(s, pos, class) == pos,
{
}

/// A run over characters of its class ends where they end.
pub proof fn lemma_run_exact(s: Seq<char>, pos: int, end: int, class: CharClass)
    requires
        0 <= pos <= end <= s.len(),
        forall|i: int| pos <= i < end ==> class.holds(#[trigger] s[i]),
        end < s.len() ==> !class.holds(s[end]),
    ensures
        run_end(s, pos, class) == end,
    decreases end - pos,
{
    if pos < end {
        assert(class.holds(s[pos]));
        lemma_run_exact(s, pos + 1, end, class);
    }
}

/// Before a solid character stands no blank, no whitespace, no newline and
/// no comment.
pub proof fn lemma_solid(s: Seq<char>, pos: int)
    requires
        0 <= pos < s.len(),
        solid(s[pos]),
    ensures
        run_end(s, pos, CharClass::Blank) == pos,
        run_end(s, pos, CharClass::Whitespace) == pos,
        run_end(s, pos, CharClass::Newline) == pos,
        comment_end(s, pos) is None,
        comment_block_end(s, pos) is None,
        after_comments(s, pos) == pos,
{
}

/// A stopper and what a value starts with are solid, and so is the colon.
pub proof fn lemma_solid_chars(c: char)
    ensures
        starts_value(c) ==> solid(c),
        stopper(c) && c != '\n' ==> solid(c),
        c == ':' ==> solid(c),
{
}

/// The digits of a natural number: there is at least one, all are decimal
/// digits, and they denote the number.
pub proof fn lemma_natural_text(n: nat)
    ensures
        natural_text(n).len() >= 1,
        forall|i: int| 0 <= i < natural_text(n).len() ==> CharClass::Digit.holds(
            #[trigger] natural_text(n)[i],
        ),
        digits_value(natural_text(n), 10) == n,
    decreases n,
{
    if n < 10 {
        let t = natural_text(n);
        assert(t.drop_last() =~= Seq::empty());
        assert(digits_value(t.drop_last(), 10) == 0);
    } else {
        lemma_natural_text(n / 10);
        let t = natural_text(n);
        assert(t.drop_last() =~= natural_text(n / 10));
        assert(t.last() == digit_char((n % 10) as int));
    }
}

/// At a character that is none of `"`, `-`, a digit, `t`, `f` and `$`, no
/// string, number, boolean or substitution starts.
pub proof fn lemma_no_token_start(s: Seq<char>, pos: int)
    requires
        0 <= pos < s.len(),
        s[pos] != '"',
        s[pos] != '-',
        !CharClass::Digit.holds(s[pos]),
        s[pos] != 't',
        s[pos] != 'f',
        s[pos] != '$',
    ensures
        multiline_string_at(s, pos) is None,
        quoted_string_at(s, pos) is None,
        number_at(s, pos) is None,
        boolean_at(s, pos) is None,
        substitution_at(s, pos) is None,
{
    if occurs_at(s, pos, seq!['t', 'r', 'u', 'e']) {
        lemma_first_char(s, pos, seq!['t', 'r', 'u', 'e']);
    }
    if occurs_at(s, pos, seq!['f', 'a', 'l', 's', 'e']) {
        lemma_first_char(s, pos, seq!['f', 'a', 'l', 's', 'e']);
    }
    if occurs_at(s, pos, seq!['$', '{']) {
        lemma_first_char(s, pos, seq!['$', '{']);
    }
}

/// At a stopper no token starts.
pub proof fn lemma_stopper_is_no_token(s: Seq<char>, pos: int)
    requires
        0 <= pos < s.len(),
        stopper(s[pos]),
    ensures
        single_value_at(s, pos) is None,
        tokens_at(s, pos) == (Seq::<ValueView>::empty(), pos),
{
    lemma_no_token_start(s, pos);
    assert(is_structural(s[pos]));
    assert(unquoted_end(s, pos) == pos);
}

/// At a character other than `$` no substitution starts.
pub proof fn lemma_no_substitution(s: Seq<char>, pos: int)
    requires
        0 <= pos < s.len(),
        s[pos] != '$',
    ensures
        substitution_at(s, pos) is None,
{
    if occurs_at(s, pos, seq!['$', '{']) {
        lemma_first_char(s, pos, seq!['$', '{']);
    }
}

/// At a character other than `i` no directive starts.
pub proof fn lemma_no_inclusion(s: Seq<char>, pos: int)
    requires
        0 <= pos < s.len(),
        s[pos] != 'i',
    ensures
        inclusion_at(s, pos) is None,
{
    reveal(inclusion_at);
    if occurs_at(s, pos, inclusion_keyword()) {
        lemma_first_char(s, pos, inclusion_keyword());
    }
}

/// At a solid character other than `{` no object starts.
pub proof fn lemma_no_object(s: Seq<char>, pos: int)
    requires
        0 <= pos < s.len(),
        solid(s[pos]),
        s[pos] != '{',
    ensures
        object_at(s, pos) is None,
{
    lemma_solid(s, pos);
}

/// At a solid character other than `[` no array starts.
pub proof fn lemma_no_array(s: Seq<char>, pos: int)
    requires
        0 <= pos < s.len(),
        solid(s[pos]),
        s[pos] != '[',
    ensures
        array_at(s, pos) is None,
{
    lemma_solid(s, pos);
}

/// At a solid character that is neither `$` nor `{`, no object position
/// starts.
pub proof fn lemma_no_objects(s: Seq<char>, pos: int)
    requires
        0 <= pos < s.len(),
        solid(s[pos]),
        s[pos] != '{',
        s[pos] != '$',
    ensures
        objects_at(s, pos) is None,
{
    lemma_no_substitution(s, pos);
    lemma_no_object(s, pos);
}

/// At a solid character that is neither `$` nor `[`, no array position
/// starts.
pub proof fn lemma_no_arrays(s: Seq<char>, pos: int)
    requires
        0 <= pos < s.len(),
        solid(s[pos]),
        s[pos] != '[',
        s[pos] != '$',
    ensures
        arrays_at(s, pos) is None,
{
    lemma_no_substitution(s, pos);
    lemma_no_array(s, pos);
}

/// Where one token stands and a stopper follows it, the token is the
/// value.
pub proof fn lemma_value_of_token(s: Seq<char>, pos: int, v: ValueView, end: int)
    requires
        0 <= pos < end < s.len(),
        solid(s[pos]),
        single_value_at(s, pos) == Some((v, end)),
        stopper(s[end]),
    ensures
        value_at(s, pos) == Some((v, end)),
{
    lemma_solid(s, pos);
    lemma_stopper_is_no_token(s, end);
}

/// Where a value stands that is no object, array or directive, its entry
/// is what stands there.
pub proof fn lemma_element_of_value(s: Seq<char>, pos: int, v: ValueView, end: int)
    requires
        0 <= pos < s.len(),
        solid(s[pos]),
        s[pos] != '{',
        s[pos] != '[',
        s[pos] != '$',
        s[pos] != 'i',
        value_at(s, pos) == Some((v, end)),
    ensures
        element_at(s, pos) == Some((seq![root_entry(v)], end)),
{
    lemma_solid(s, pos);
    lemma_no_objects(s, pos);
    lemma_no_arrays(s, pos);
    lemma_no_inclusion(s, pos);
}

/// An integer in decimal, with a character behind it that no number goes
/// on with, is read as that integer.
pub proof fn lemma_reads_integer(s: Seq<char>, pos: int, i: i64)
    requires
        occurs_at(s, pos, integer_text(i as int)),
        pos + integer_text(i as int).len() < s.len(),
        !number_char(s[pos + integer_text(i as int).len()]),
    ensures
        single_value_at(s, pos) == Some((ValueView::Integer(i), pos + integer_text(i as int).len())),
{
    let w = integer_text(i as int);
    let end = pos + w.len();
    lemma_occurs_chars(s, pos, w);
    let magnitude: nat = if i < 0 {
        (-i) as nat
    } else {
        i as nat
    };
    let digits = natural_text(magnitude);
    lemma_natural_text(magnitude);
    let first = if i < 0 {
        pos + 1
    } else {
        pos
    };
    assert(w.len() > 0);
    if i < 0 {
        assert(w[0] == '-');
        assert(s[pos] == '-');
        assert forall|k: int| first <= k < end implies CharClass::Digit.holds(#[trigger] s[k]) by {
            assert(s[k] == w[k - pos]);
            assert(w[k - pos] == digits[k - pos - 1]);
        }
        assert(s.subrange(first, end) =~= digits) by {
            assert forall|k: int| 0 <= k < digits.len() implies s.subrange(first, end)[k]
                == digits[k] by {
                assert(s[first + k] == w[k + 1]);
            }
        }
    } else {
        assert(w == digits);
        assert(CharClass::Digit.holds(digits[0]));
        assert(s[pos] == digits[0]);
        assert forall|k: int| first <= k < end implies CharClass::Digit.holds(#[trigger] s[k]) by {
            assert(s[k] == w[k - pos]);
        }
        assert(s.subrange(first, end) =~= digits);
    }
    lemma_run_exact(s, first, end, CharClass::Digit);
    assert(fraction_end(s, end) == end);
    assert(exponent_end(s, end) == end);
    assert(number_end(s, pos) == Some(end));
    assert(number_is_whole(s, pos));
    assert(char_at(s, pos, '-') == (i < 0));
    assert(integer_of(digits, i < 0) == Some(i));
    assert(s[pos] != '"');
    assert(multiline_string_at(s, pos) is None);
    assert(quoted_string_at(s, pos) is None);
}

/// `true` and `false` are read as what they are.
pub proof fn lemma_reads_boolean(s: Seq<char>, pos: int, b: bool)
    requires
        occurs_at(s, pos, written_leaf(ValueView::Boolean(b))),
    ensures
        single_value_at(s, pos) == Some(
            (ValueView::Boolean(b), pos + written_leaf(ValueView::Boolean(b)).len()),
        ),
{
    let w = written_leaf(ValueView::Boolean(b));
    lemma_occurs_chars(s, pos, w);
    assert(s[pos] == w[0]);
    assert(multiline_string_at(s, pos) is None);
    assert(quoted_string_at(s, pos) is None);
    assert(number_at(s, pos) is None);
    if !b {
        if occurs_at(s, pos, seq!['t', 'r', 'u', 'e']) {
            lemma_first_char(s, pos, seq!['t', 'r', 'u', 'e']);
        }
    }
}

/// At `n`, `u` or `l` no string, number, boolean or substitution starts.
pub proof fn lemma_word_is_no_other_token(s: Seq<char>, pos: int)
    requires
        0 <= pos < s.len(),
        s[pos] == 'n' || s[pos] == 'u' || s[pos] == 'l' || s[pos] == ' ',
    ensures
        multiline_string_at(s, pos) is None,
        quoted_string_at(s, pos) is None,
        number_at(s, pos) is None,
        boolean_at(s, pos) is None,
        substitution_at(s, pos) is None,
{
    lemma_no_token_start(s, pos);
}

/// The word `null`, with a character behind it that ends a word, is read
/// as that word.
pub proof fn lemma_reads_null(s: Seq<char>, pos: int)
    requires
        occurs_at(s, pos, seq!['n', 'u', 'l', 'l']),
        pos + 4 < s.len(),
        is_structural(s[pos + 4]),
    ensures
        single_value_at(s, pos) == Some(
            (ValueView::UnquotedString(seq!['n', 'u', 'l', 'l']), pos + 4),
        ),
{
    let w = seq!['n', 'u', 'l', 'l'];
    lemma_occurs_chars(s, pos, w);
    assert(s[pos] == w[0] && s[pos + 1] == w[1] && s[pos + 2] == w[2] && s[pos + 3] == w[3]);
    lemma_word_is_no_other_token(s, pos);
    assert(unquoted_end(s, pos + 4) == pos + 4);
    assert(unquoted_end(s, pos + 3) == pos + 4);
    assert(unquoted_end(s, pos + 2) == pos + 4);
    assert(unquoted_end(s, pos + 1) == pos + 4);
    assert(unquoted_end(s, pos) == pos + 4);
    assert(s.subrange(pos, pos + 4) =~= w);
}

/// `true`, `false` and `null`, with a stopper behind them, are read as
/// what they are.
pub proof fn lemma_reads_word(s: Seq<char>, pos: int, v: ValueView)
    requires
        v is Boolean || v is Null,
        stops_after(s, pos, written_leaf(v)),
    ensures
        single_value_at(s, pos) == Some((leaf_value(v), pos + written_leaf(v).len())),
{
    match v {
        ValueView::Boolean(b) => {
            lemma_reads_boolean(s, pos, b);
        },
        _ => {
            lemma_reads_null(s, pos);
        },
    }
}

/// A text in quotes, with something other than a quote behind it, is read
/// as a quoted string with that text.
pub proof fn lemma_reads_quoted(s: Seq<char>, pos: int, t: Seq<char>)
    requires
        occurs_at(s, pos, quoted(t)),
        pos + quoted(t).len() < s.len(),
        s[pos + quoted(t).len()] != '"',
    ensures
        quoted(t).len() >= 2,
        quoted(t)[0] == '"',
        multiline_string_at(s, pos) is None,
        quoted_string_at(s, pos) == Some(
            (pos + 1, pos + quoted(t).len() - 1, pos + quoted(t).len()),
        ),
        decoded(s.subrange(pos + 1, pos + quoted(t).len() - 1)) == t,
{
    lemma_quoted_reads(s, pos, t);
    lemma_decoded_escaped(t);
}

/// The text of a plain leaf begins with a character that a value begins
/// with, and that opens no object or array.
pub proof fn lemma_leaf_start(v: ValueView)
    requires
        plain_leaf(v),
    ensures
        written_leaf(v).len() > 0,
        starts_value(written_leaf(v)[0]),
        written_leaf(v)[0] != '{',
        written_leaf(v)[0] != '[',
{
    match v {
        ValueView::Integer(i) => {
            lemma_natural_text(
                if i < 0 {
                    (-i) as nat
                } else {
                    i as nat
                },
            );
            let magnitude: nat = if i < 0 {
                (-i) as nat
            } else {
                i as nat
            };
            assert(CharClass::Digit.holds(natural_text(magnitude)[0]));
        },
        ValueView::String(t) => {
            assert(quoted(t)[0] == '"');
        },
        ValueView::Real(t) => {
            lemma_real_start(t);
        },
        _ => {},
    }
}

/// A number that is kept as its text begins with a minus sign or a digit.
pub proof fn lemma_real_start(t: Seq<char>)
    requires
        real_text(t),
    ensures
        t.len() > 0,
        t[0] == '-' || CharClass::Digit.holds(t[0]),
{
    lemma_run_end(t, digits_start(t), CharClass::Digit);
}

/// The text of a plain leaf, with a stopper behind it, is read as one
/// token: the value of the leaf.
pub proof fn lemma_reads_token(s: Seq<char>, pos: int, v: ValueView)
    requires
        plain_leaf(v),
        !(v is UnquotedString),
        stops_after(s, pos, written_leaf(v)),
    ensures
        single_value_at(s, pos) == Some((leaf_value(v), pos + written_leaf(v).len())),
{
    match v {
        ValueView::Integer(i) => {
            lemma_reads_integer(s, pos, i);
        },
        ValueView::String(t) => {
            lemma_reads_quoted(s, pos, t);
        },
        ValueView::Real(t) => {
            lemma_reads_real(s, pos, t);
        },
        _ => {
            lemma_reads_word(s, pos, v);
        },
    }
}

/// The text of a plain leaf, with a stopper behind it, is read as the
/// entry of the leaf.
pub proof fn lemma_reads_leaf(s: Seq<char>, pos: int, v: ValueView)
    requires
        plain_leaf(v),
        !(v is UnquotedString),
        stops_after(s, pos, written_leaf(v)),
    ensures
        element_at(s, pos) == Some((seq![root_entry(leaf_value(v))], pos + written_leaf(v).len())),
{
    let w = written_leaf(v);
    let end = pos + w.len();
    lemma_leaf_start(v);
    lemma_reads_token(s, pos, v);
    lemma_first_char(s, pos, w);
    lemma_solid_chars(s[pos]);
    lemma_value_of_token(s, pos, leaf_value(v), end);
    lemma_element_of_value(s, pos, leaf_value(v), end);
}

/// A comma before a solid character parts two members or elements.
pub proof fn lemma_separator_comma(s: Seq<char>, pos: int)
    requires
        0 <= pos,
        pos + 1 < s.len(),
        s[pos] == ',',
        solid(s[pos + 1]),
    ensures
        separators_end(s, pos) == Some(pos + 1),
{
    reveal(separators_end);
    lemma_solid_chars(s[pos]);
    lemma_solid(s, pos);
    lemma_solid(s, pos + 1);
}

/// A solid character other than the comma parts nothing.
pub proof fn lemma_no_separator(s: Seq<char>, pos: int)
    requires
        0 <= pos < s.len(),
        solid(s[pos]),
        s[pos] != ',',
    ensures
        separators_end(s, pos) is None,
{
    reveal(separators_end);
    lemma_solid(s, pos);
}

/// A closing bracket that is solid closes.
pub proof fn lemma_closing(s: Seq<char>, pos: int, c: char)
    requires
        0 <= pos < s.len(),
        s[pos] == c,
        solid(c),
        c != ',',
    ensures
        closing_end(s, pos, c) == Some(pos + 1),
{
    reveal(closing_end);
    lemma_no_separator(s, pos);
    lemma_solid(s, pos);
}

/// A name in quotes before a colon is read as the key of that name.
pub proof fn lemma_reads_key(s: Seq<char>, pos: int, name: Seq<char>)
    requires
        occurs_at(s, pos, quoted(name)),
        pos + quoted(name).len() < s.len(),
        s[pos + quoted(name).len()] == ':',
    ensures
        key_at(s, pos) == Some((seq![PathItemView::Key(name)], pos + quoted(name).len())),
{
    reveal(key_at);
    lemma_reads_quoted(s, pos, name);
    lemma_first_char(s, pos, quoted(name));
    lemma_solid_chars(s[pos]);
    lemma_solid(s, pos);
    lemma_solid_chars(':');
    lemma_solid(s, pos + quoted(name).len());
    assert(key_path(name, true) =~= seq![PathItemView::Key(name)]);
}

/// A colon and a value make the tail of a member.
pub proof fn lemma_reads_tail(s: Seq<char>, pos: int, key: PathView)
    requires
        0 <= pos,
        pos + 1 < s.len(),
        s[pos] == ':',
        solid(s[pos + 1]),
    ensures
        member_tail_at(s, pos, key) == member_of(key, element_at(s, pos + 1)),
{
    lemma_solid_chars(':');
    lemma_solid(s, pos);
    lemma_solid(s, pos + 1);
    assert(!occurs_at(s, pos, seq!['+', '='])) by {
        if occurs_at(s, pos, seq!['+', '=']) {
            lemma_first_char(s, pos, seq!['+', '=']);
        }
    }
}

/// A key and the tail behind it make a member.
pub proof fn lemma_reads_member_parts(s: Seq<char>, pos: int, key: PathView, after_key: int)
    requires
        0 <= pos < after_key <= s.len(),
        s[pos] == '"',
        key_at(s, pos) == Some((key, after_key)),
    ensures
        member_at(s, pos) == member_tail_at(s, after_key, key),
{
    lemma_solid_chars(s[pos]);
    lemma_solid(s, pos);
    lemma_no_inclusion(s, pos);
}

/// The text of a plain tree begins with a character that a value begins
/// with: an object with a brace, an array with a bracket, and a leaf with
/// neither.
pub proof fn lemma_tree_start(n: NodeView)
    requires
        plain_tree(n),
    ensures
        written(n).len() > 0,
        starts_value(written(n)[0]),
        (n is Hash) == (written(n)[0] == '{'),
        (n is Array) == (written(n)[0] == '['),
{
    match n {
        NodeView::Leaf(v) => {
            lemma_leaf_start(v);
        },
        _ => {},
    }
}

/// At a closing brace no member starts.
pub proof fn lemma_no_member(s: Seq<char>, pos: int)
    requires
        0 <= pos < s.len(),
        s[pos] == '}',
    ensures
        member_at(s, pos) is None,
        members_at(s, pos) == (Seq::<EntryView>::empty(), pos),
{
    reveal(key_at);
    lemma_solid_chars(s[pos]);
    lemma_solid(s, pos);
    lemma_no_inclusion(s, pos);
    assert(quoted_string_at(s, pos) is None);
    assert(is_structural(s[pos]));
    assert(unquoted_end(s, pos) == pos);
}

/// At a closing bracket no element starts.
pub proof fn lemma_no_element(s: Seq<char>, pos: int)
    requires
        0 <= pos < s.len(),
        s[pos] == ']',
    ensures
        element_at(s, pos) is None,
        elements_at(s, pos) == (Seq::<Seq<EntryView>>::empty(), pos),
{
    lemma_solid_chars(s[pos]);
    lemma_solid(s, pos);
    lemma_no_inclusion(s, pos);
    lemma_no_objects(s, pos);
    lemma_no_arrays(s, pos);
    lemma_stopper_is_no_token(s, pos);
}

/// Members between braces, with a stopper behind the closing brace, are
/// read as an object.
pub proof fn lemma_reads_object(s: Seq<char>, pos: int, d: Seq<EntryView>, mid: int)
    requires
        0 <= pos < mid,
        mid + 1 < s.len(),
        s[pos] == '{',
        members_at(s, pos + 1) == (d, mid),
        s[mid] == '}',
        stopper(s[mid + 1]),
    ensures
        object_at(s, pos) == Some((d, mid + 1)),
        objects_at(s, pos) == Some((d, mid + 1)),
        element_at(s, pos) == Some((object_entries(d), mid + 1)),
{
    lemma_solid_chars(s[pos]);
    lemma_solid(s, pos);
    lemma_closing(s, mid, '}');
    lemma_run_stays(s, mid + 1, CharClass::Blank);
    lemma_no_substitution(s, pos);
    assert(object_at(s, pos) == Some((d, mid + 1)));
    assert(object_at(s, mid + 1) is None) by {
        lemma_run_stays(s, mid + 1, CharClass::Blank);
    }
    assert(more_objects_at(s, mid + 1) == (Seq::<EntryView>::empty(), mid + 1));
    assert(Seq::<EntryView>::empty() + d + Seq::<EntryView>::empty() =~= d);
    assert(objects_at(s, pos) == Some((d, mid + 1)));
}

/// Elements between brackets, with a stopper behind the closing bracket,
/// are read as an array.
pub proof fn lemma_reads_array(s: Seq<char>, pos: int, items: Seq<Seq<EntryView>>, mid: int)
    requires
        0 <= pos < mid,
        mid + 1 < s.len(),
        s[pos] == '[',
        solid(s[pos + 1]),
        elements_at(s, pos + 1) == (items, mid),
        s[mid] == ']',
        stopper(s[mid + 1]),
    ensures
        array_at(s, pos) == Some((items, mid + 1)),
        arrays_at(s, pos) == Some((items, mid + 1)),
        element_at(s, pos) == Some((array_entries(items), mid + 1)),
{
    assert(items + Seq::<Seq<EntryView>>::empty() =~= items);
    lemma_solid_chars(s[pos]);
    lemma_solid(s, pos);
    lemma_solid(s, pos + 1);
    lemma_closing(s, mid, ']');
    lemma_no_substitution(s, pos);
    assert(array_at(s, pos) == Some((items, mid + 1)));
    assert(array_at(s, mid + 1) is None) by {
        lemma_run_stays(s, mid + 1, CharClass::Blank);
    }
    assert(more_arrays_at(s, mid + 1) == (Seq::<Seq<EntryView>>::empty(), mid + 1));
    assert(arrays_at(s, pos) == Some((items, mid + 1)));
    lemma_no_objects(s, pos);
}

/// The members from a place on, given the first of them, which starts at
/// `start`; nothing, and the place `fail`, where there is none.
pub open spec fn members_from(
    first: Option<(Seq<EntryView>, int)>,
    s: Seq<char>,
    fail: int,
    start: int,
) -> (Seq<EntryView>, int) {
    match first {
        Some((d, end)) => if start < end <= s.len() {
            (d + more_members_at(s, end).0, more_members_at(s, end).1)
        } else {
            (Seq::empty(), fail)
        },
        None => (Seq::empty(), fail),
    }
}

/// The elements from a place on, given the first of them.
pub open spec fn elements_from(
    first: Option<(Seq<EntryView>, int)>,
    s: Seq<char>,
    fail: int,
    start: int,
) -> (Seq<Seq<EntryView>>, int) {
    match first {
        Some((d, end)) => if start < end <= s.len() {
            (seq![d] + more_elements_at(s, end).0, more_elements_at(s, end).1)
        } else {
            (Seq::empty(), fail)
        },
        None => (Seq::empty(), fail),
    }
}

/// Behind a comma, the further members begin with the member behind it.
pub proof fn lemma_more_members(s: Seq<char>, pos: int)
    requires
        0 <= pos,
        pos + 1 < s.len(),
        s[pos] == ',',
        solid(s[pos + 1]),
    ensures
        more_members_at(s, pos) == members_from(member_at(s, pos + 1), s, pos, pos + 1),
{
    lemma_separator_comma(s, pos);
}

/// Members begin with the first member.
pub proof fn lemma_first_member(s: Seq<char>, pos: int)
    requires
        0 <= pos,
    ensures
        members_at(s, pos) == members_from(member_at(s, pos), s, pos, pos),
{
}

/// Behind a comma, the further elements begin with the element behind it.
pub proof fn lemma_more_elements(s: Seq<char>, pos: int)
    requires
        0 <= pos,
        pos + 1 < s.len(),
        s[pos] == ',',
        solid(s[pos + 1]),
    ensures
        more_elements_at(s, pos) == elements_from(element_at(s, pos + 1), s, pos, pos + 1),
{
    lemma_separator_comma(s, pos);
}

/// Elements begin with the first element.
pub proof fn lemma_first_element(s: Seq<char>, pos: int)
    requires
        0 <= pos,
    ensures
        elements_at(s, pos) == elements_from(element_at(s, pos), s, pos, pos),
{
}

/// At a closing brace the further members end.
pub proof fn lemma_members_end(s: Seq<char>, pos: int)
    requires
        0 <= pos < s.len(),
        s[pos] == '}',
    ensures
        more_members_at(s, pos) == (Seq::<EntryView>::empty(), pos),
{
    lemma_solid_chars(s[pos]);
    lemma_no_separator(s, pos);
}

/// At a closing bracket the further elements end.
pub proof fn lemma_elements_end(s: Seq<char>, pos: int)
    requires
        0 <= pos < s.len(),
        s[pos] == ']',
    ensures
        more_elements_at(s, pos) == (Seq::<Seq<EntryView>>::empty(), pos),
{
    lemma_solid_chars(s[pos]);
    lemma_no_separator(s, pos);
}

/// Whether what stands at `pos` where a value is asked for gives the
/// entries `d` and ends at `end`.
#[verifier::opaque]
pub open spec fn element_reads(s: Seq<char>, pos: int, d: Seq<EntryView>, end: int) -> bool {
    element_at(s, pos) == Some((d, end))
}

/// Whether the member at `pos` gives the entries `d` and ends at `end`.
#[verifier::opaque]
pub open spec fn member_reads(s: Seq<char>, pos: int, d: Seq<EntryView>, end: int) -> bool {
    member_at(s, pos) == Some((d, end))
}

/// Whether the members from `pos` on give the entries `d` and end at
/// `end`.
#[verifier::opaque]
pub open spec fn members_read(s: Seq<char>, pos: int, d: Seq<EntryView>, end: int) -> bool {
    members_at(s, pos) == (d, end)
}

/// Whether the further members from `pos` on give the entries `d` and end
/// at `end`.
#[verifier::opaque]
pub open spec fn more_members_read(s: Seq<char>, pos: int, d: Seq<EntryView>, end: int) -> bool {
    more_members_at(s, pos) == (d, end)
}

/// Whether the elements from `pos` on give the entries `d`, element by
/// element, and end at `end`.
#[verifier::opaque]
pub open spec fn elements_read(s: Seq<char>, pos: int, d: Seq<Seq<EntryView>>, end: int) -> bool {
    elements_at(s, pos) == (d, end)
}

/// Whether the further elements from `pos` on give the entries `d` and
/// end at `end`.
#[verifier::opaque]
pub open spec fn more_elements_read(s: Seq<char>, pos: int, d: Seq<Seq<EntryView>>, end: int) -> bool {
    more_elements_at(s, pos) == (d, end)
}

/// Whether the array at `pos` gives the entries `d`, element by element,
/// and ends at `end`.
#[verifier::opaque]
pub open spec fn array_reads(s: Seq<char>, pos: int, d: Seq<Seq<EntryView>>, end: int) -> bool {
    array_at(s, pos) == Some((d, end))
}

/// Whether the object at `pos` gives the entries `d` and ends at `end`.
#[verifier::opaque]
pub open spec fn object_reads(s: Seq<char>, pos: int, d: Seq<EntryView>, end: int) -> bool {
    object_at(s, pos) == Some((d, end))
}

/// The text of a plain leaf, with a stopper behind it, gives the entry of
/// the leaf.
pub proof fn lemma_leaf_reads(s: Seq<char>, pos: int, v: ValueView)
    requires
        plain_leaf(v),
        !(v is UnquotedString),
        stops_after(s, pos, written_leaf(v)),
    ensures
        element_reads(s, pos, seq![root_entry(leaf_value(v))], pos + written_leaf(v).len()),
{
    reveal(element_reads);
    lemma_reads_leaf(s, pos, v);
}

/// A colon and a value make the tail of a member.
pub proof fn lemma_tail_reads(s: Seq<char>, pos: int, key: PathView, d: Seq<EntryView>, end: int)
    requires
        0 <= pos,
        pos + 1 < s.len(),
        s[pos] == ':',
        solid(s[pos + 1]),
        element_reads(s, pos + 1, d, end),
    ensures
        member_tail_at(s, pos, key) == Some((prefixed(key, d), end)),
{
    reveal(element_reads);
    lemma_reads_tail(s, pos, key);
}

/// A key and a tail behind it make a member.
pub proof fn lemma_member_of_parts(
    s: Seq<char>,
    pos: int,
    key: PathView,
    after_key: int,
    d: Seq<EntryView>,
    end: int,
)
    requires
        0 <= pos < after_key <= s.len(),
        s[pos] == '"',
        key_at(s, pos) == Some((key, after_key)),
        member_tail_at(s, after_key, key) == Some((d, end)),
    ensures
        member_reads(s, pos, d, end),
{
    reveal(member_reads);
    lemma_reads_member_parts(s, pos, key, after_key);
}

/// A name in quotes, a colon and a value make a member under that name.
pub proof fn lemma_member_reads(s: Seq<char>, pos: int, name: Seq<char>, d: Seq<EntryView>, end: int)
    requires
        0 <= pos,
        occurs_at(s, pos, quoted(name)),
        pos + quoted(name).len() + 1 < s.len(),
        s[pos + quoted(name).len()] == ':',
        solid(s[pos + quoted(name).len() + 1]),
        element_reads(s, pos + quoted(name).len() + 1, d, end),
    ensures
        member_reads(s, pos, prefixed(seq![PathItemView::Key(name)], d), end),
{
    let key = seq![PathItemView::Key(name)];
    let colon = pos + quoted(name).len();
    lemma_reads_key(s, pos, name);
    lemma_first_char(s, pos, quoted(name));
    lemma_tail_reads(s, colon, key, d, end);
    lemma_member_of_parts(s, pos, key, colon, prefixed(key, d), end);
}

/// Behind a comma, a member and the further members behind it are the
/// further members.
pub proof fn lemma_more_members_read(
    s: Seq<char>,
    pos: int,
    d: Seq<EntryView>,
    end: int,
    rest: Seq<EntryView>,
    last: int,
)
    requires
        0 <= pos,
        pos + 1 < end <= s.len(),
        s[pos] == ',',
        solid(s[pos + 1]),
        member_reads(s, pos + 1, d, end),
        more_members_read(s, end, rest, last),
    ensures
        more_members_read(s, pos, d + rest, last),
{
    reveal(member_reads);
    reveal(more_members_read);
    lemma_more_members(s, pos);
}

/// A member and the further members behind it are the members.
pub proof fn lemma_members_read(
    s: Seq<char>,
    pos: int,
    d: Seq<EntryView>,
    end: int,
    rest: Seq<EntryView>,
    last: int,
)
    requires
        0 <= pos < end <= s.len(),
        member_reads(s, pos, d, end),
        more_members_read(s, end, rest, last),
    ensures
        members_read(s, pos, d + rest, last),
{
    reveal(member_reads);
    reveal(more_members_read);
    reveal(members_read);
    lemma_first_member(s, pos);
}

/// At a closing brace the members end.
pub proof fn lemma_members_end_read(s: Seq<char>, pos: int)
    requires
        0 <= pos < s.len(),
        s[pos] == '}',
    ensures
        more_members_read(s, pos, Seq::empty(), pos),
        members_read(s, pos, Seq::empty(), pos),
{
    reveal(more_members_read);
    reveal(members_read);
    lemma_members_end(s, pos);
    lemma_no_member(s, pos);
}

/// Behind a comma, an element and the further elements behind it are the
/// further elements.
pub proof fn lemma_more_elements_read(
    s: Seq<char>,
    pos: int,
    d: Seq<EntryView>,
    end: int,
    rest: Seq<Seq<EntryView>>,
    last: int,
)
    requires
        0 <= pos,
        pos + 1 < end <= s.len(),
        s[pos] == ',',
        solid(s[pos + 1]),
        element_reads(s, pos + 1, d, end),
        more_elements_read(s, end, rest, last),
    ensures
        more_elements_read(s, pos, seq![d] + rest, last),
{
    reveal(element_reads);
    reveal(more_elements_read);
    lemma_more_elements(s, pos);
}

/// An element and the further elements behind it are the elements.
pub proof fn lemma_elements_read(
    s: Seq<char>,
    pos: int,
    d: Seq<EntryView>,
    end: int,
    rest: Seq<Seq<EntryView>>,
    last: int,
)
    requires
        0 <= pos < end <= s.len(),
        element_reads(s, pos, d, end),
        more_elements_read(s, end, rest, last),
    ensures
        elements_read(s, pos, seq![d] + rest, last),
{
    reveal(element_reads);
    reveal(more_elements_read);
    reveal(elements_read);
    lemma_first_element(s, pos);
}

/// At a closing bracket the elements end.
pub proof fn lemma_elements_end_read(s: Seq<char>, pos: int)
    requires
        0 <= pos < s.len(),
        s[pos] == ']',
    ensures
        more_elements_read(s, pos, Seq::empty(), pos),
        elements_read(s, pos, Seq::empty(), pos),
{
    reveal(more_elements_read);
    reveal(elements_read);
    lemma_elements_end(s, pos);
    lemma_no_element(s, pos);
}

/// Members between braces, with a stopper behind the closing brace, give
/// an object.
pub proof fn lemma_object_reads(s: Seq<char>, pos: int, d: Seq<EntryView>, mid: int)
    requires
        0 <= pos < mid,
        mid + 1 < s.len(),
        s[pos] == '{',
        members_read(s, pos + 1, d, mid),
        s[mid] == '}',
        stopper(s[mid + 1]),
    ensures
        object_reads(s, pos, d, mid + 1),
        element_reads(s, pos, object_entries(d), mid + 1),
{
    reveal(members_read);
    reveal(object_reads);
    reveal(element_reads);
    lemma_reads_object(s, pos, d, mid);
}

/// Elements between brackets, with a stopper behind the closing bracket,
/// give an array.
pub proof fn lemma_array_reads(s: Seq<char>, pos: int, items: Seq<Seq<EntryView>>, mid: int)
    requires
        0 <= pos < mid,
        mid + 1 < s.len(),
        s[pos] == '[',
        solid(s[pos + 1]),
        elements_read(s, pos + 1, items, mid),
        s[mid] == ']',
        stopper(s[mid + 1]),
    ensures
        element_reads(s, pos, array_entries(items), mid + 1),
        array_reads(s, pos, items, mid + 1),
{
    reveal(elements_read);
    reveal(element_reads);
    reveal(array_reads);
    lemma_reads_array(s, pos, items, mid);
}

/// The text of a plain tree, with a stopper behind it, gives the entries
/// of the tree.
pub proof fn lemma_tree_reads(n: NodeView, s: Seq<char>, pos: int)
    requires
        plain_tree(n),
        final_tree(n),
        stops_after(s, pos, written(n)),
    ensures
        element_reads(s, pos, flat(n), pos + written(n).len()),
        n matches NodeView::Hash(members) ==> object_reads(
            s,
            pos,
            flat_members(members, 0),
            pos + written(n).len(),
        ),
        n matches NodeView::Array(items, _) ==> array_reads(
            s,
            pos,
            flat_items(items),
            pos + written(n).len(),
        ),
    decreases n, 2nat,
{
    match n {
        NodeView::Leaf(v) => {
            lemma_leaf_reads(s, pos, v);
        },
        NodeView::Hash(members) => {
            let inner = written_members(members, 0);
            lemma_occurs_three(s, pos, seq!['{'], inner, seq!['}']);
            lemma_first_char(s, pos, seq!['{']);
            lemma_first_char(s, pos + 1 + inner.len(), seq!['}']);
            lemma_members_text_read(members, 0, s, pos + 1);
            lemma_object_reads(s, pos, flat_members(members, 0), pos + 1 + inner.len());
        },
        NodeView::Array(items, last) => {
            let inner = written_items(items, 0);
            lemma_occurs_three(s, pos, seq!['['], inner, seq![']']);
            lemma_first_char(s, pos, seq!['[']);
            lemma_first_char(s, pos + 1 + inner.len(), seq![']']);
            lemma_items_text_read(items, 0, s, pos + 1);
            if items.len() > 0 {
                lemma_tree_start(items[0]);
                lemma_occurs_parts(
                    s,
                    pos + 1,
                    comma_before(0) + written(items[0]),
                    written_items(items, 1),
                );
                assert(comma_before(0) + written(items[0]) =~= written(items[0]));
                lemma_first_char(s, pos + 1, written(items[0]));
            }
            lemma_solid_chars(s[pos + 1]);
            lemma_array_reads(s, pos, flat_items(items), pos + 1 + inner.len());
            lemma_flat_elements(items, 0);
        },
    }
}

/// The text of the members from `from` on, before a closing brace, gives
/// the entries of those members.
pub proof fn lemma_members_text_read(
    members: Seq<(Seq<char>, NodeView)>,
    from: nat,
    s: Seq<char>,
    pos: int,
)
    requires
        plain_tree(NodeView::Hash(members)),
        final_tree(NodeView::Hash(members)),
        from <= members.len(),
        occurs_at(s, pos, written_members(members, from)),
        pos + written_members(members, from).len() < s.len(),
        s[pos + written_members(members, from).len()] == '}',
    ensures
        from > 0 ==> more_members_read(
            s,
            pos,
            flat_members(members, from),
            pos + written_members(members, from).len(),
        ),
        from == 0 ==> members_read(
            s,
            pos,
            flat_members(members, from),
            pos + written_members(members, from).len(),
        ),
    decreases members, members.len() - from, 1nat,
{
    let whole = written_members(members, from);
    if from >= members.len() {
        lemma_members_end_read(s, pos);
    } else {
        let name = members[from as int].0;
        let value = members[from as int].1;
        let comma = comma_before(from);
        let text = written(value);
        let rest = written_members(members, from + 1);
        assert(plain_tree(value) && final_tree(value));
        lemma_occurs_parts(s, pos, comma + quoted(name) + seq![':'] + text, rest);
        lemma_occurs_parts(s, pos, comma + quoted(name) + seq![':'], text);
        lemma_occurs_three(s, pos, comma, quoted(name), seq![':']);
        let start = pos + comma.len();
        let colon = start + quoted(name).len();
        let value_at = colon + 1;
        let end = value_at + text.len();
        lemma_first_char(s, colon, seq![':']);
        lemma_tree_start(value);
        lemma_first_char(s, value_at, text);
        lemma_solid_chars(s[value_at]);
        if from + 1 < members.len() {
            assert(rest.len() > 0 && rest[0] == ',') by {
                assert(comma_before(from + 1) =~= seq![',']);
            }
            lemma_first_char(s, end, rest);
        }
        lemma_tree_reads(value, s, value_at);
        lemma_member_reads(s, start, name, flat(value), end);
        lemma_members_text_read(members, from + 1, s, end);
        let d = prefixed(seq![PathItemView::Key(name)], flat(value));
        if from > 0 {
            lemma_first_char(s, pos, comma);
            lemma_first_char(s, start, quoted(name));
            lemma_solid_chars(s[pos + 1]);
            lemma_more_members_read(
                s,
                pos,
                d,
                end,
                flat_members(members, from + 1),
                end + rest.len(),
            );
        } else {
            lemma_members_read(s, pos, d, end, flat_members(members, from + 1), end + rest.len());
        }
    }
}

/// The text of the elements from `from` on, before a closing bracket,
/// gives the entries of those elements.
pub proof fn lemma_items_text_read(items: Seq<NodeView>, from: nat, s: Seq<char>, pos: int)
    requires
        forall|i: int| 0 <= i < items.len() ==> plain_tree(#[trigger] items[i]),
        forall|i: int| 0 <= i < items.len() ==> final_tree(#[trigger] items[i]),
        from <= items.len(),
        occurs_at(s, pos, written_items(items, from)),
        pos + written_items(items, from).len() < s.len(),
        s[pos + written_items(items, from).len()] == ']',
    ensures
        from > 0 ==> more_elements_read(
            s,
            pos,
            flat_items(items).subrange(from as int, items.len() as int),
            pos + written_items(items, from).len(),
        ),
        from == 0 ==> elements_read(
            s,
            pos,
            flat_items(items),
            pos + written_items(items, from).len(),
        ),
    decreases items, items.len() - from, 1nat,
{
    let all = flat_items(items);
    if from >= items.len() {
        lemma_elements_end_read(s, pos);
        assert(all.subrange(from as int, items.len() as int) =~= Seq::empty());
        assert(all =~= Seq::empty() || from > 0);
    } else {
        let value = items[from as int];
        let comma = comma_before(from);
        let text = written(value);
        let rest = written_items(items, from + 1);
        assert(plain_tree(value) && final_tree(value));
        lemma_occurs_three(s, pos, comma, text, rest);
        let start = pos + comma.len();
        let end = start + text.len();
        lemma_tree_start(value);
        lemma_first_char(s, start, text);
        lemma_solid_chars(s[start]);
        if from + 1 < items.len() {
            assert(rest.len() > 0 && rest[0] == ',') by {
                assert(comma_before(from + 1) =~= seq![',']);
            }
            lemma_first_char(s, end, rest);
        }
        lemma_tree_reads(value, s, start);
        lemma_items_text_read(items, from + 1, s, end);
        let tail = all.subrange((from + 1) as int, items.len() as int);
        assert(seq![flat(value)] + tail =~= all.subrange(from as int, items.len() as int));
        if from > 0 {
            lemma_first_char(s, pos, comma);
            lemma_more_elements_read(s, pos, flat(value), end, tail, end + rest.len());
        } else {
            assert(all.subrange(0, items.len() as int) =~= all);
            lemma_elements_read(s, pos, flat(value), end, tail, end + rest.len());
        }
    }
}

} // verus!
