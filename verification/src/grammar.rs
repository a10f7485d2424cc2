//! The grammar of the notation, as functions from a text and a position to
//! what stands there and where it ends. Each function is `None` where the
//! text does not hold what it asks for.
//!
//! A value is a run of tokens written side by side. An object is a list of
//! members between braces, an array a list of values between brackets;
//! members and elements are parted by newlines, commas or comments. What
//! an object or an array yields is not a tree but the entries of its
//! members, each under the path that leads to it.

use crate::document::{
    array_entries, documents_view, element_entries, inclusion_entry, object_entries, prefixed,
    root_entry, Document,
};
use crate::scan::{
    after_comments, multiline_comment, comment_block_end, integer, integer_of, lemma_run_end,
    multiline_string,
    multiline_string_at, number_end, number_is_whole, quoted_string, quoted_string_at,
    recognize_number,
    run_end, possible_comment, skip_run, unquoted_string, unquoted_string_at, CharClass,
};
use crate::text::{copy_range, occurs_at, starts_with_pair};
use crate::unescape::{decoded, escape_pattern_list, unescape_chars, PatternFinder};
use crate::value::{
    lemma_concat_view, path_view, values_view, EntryView, OperationId, OperationIdView, PathItem,
    PathItemView, PathView, SourceKind, Value, ValueView,
};
use crate::words::{blank, is_blank, key_path, split_key, trim_range, trimmed_range};
use vstd::prelude::*;

verus! {

/// Whether `c` stands at `pos`.
pub open spec fn char_at(s: Seq<char>, pos: int, c: char) -> bool {
    0 <= pos < s.len() && s[pos] == c
}

/// Whether `v` is an unquoted word of spaces alone.
pub open spec fn is_blank_word(v: ValueView) -> bool {
    v matches ValueView::UnquotedString(t) && is_blank(t)
}

/// The tokens of a value that count: all but a word of spaces alone at
/// the very start or the very end.
pub open spec fn counted_tokens(tokens: Seq<ValueView>) -> Seq<ValueView> {
    let head = if tokens.len() > 0 && is_blank_word(tokens[0]) {
        tokens.drop_first()
    } else {
        tokens
    };
    if tokens.len() > 1 && head.len() > 0 && is_blank_word(head.last()) {
        head.drop_last()
    } else {
        head
    }
}

/// The value that two or more tokens written side by side make up.
pub open spec fn folded(tokens: Seq<ValueView>) -> ValueView {
    let counted = counted_tokens(tokens);
    if counted.len() == 1 {
        counted[0]
    } else {
        ValueView::Concat(counted)
    }
}

/// A number that starts at `pos`: a 64-bit integer where it is written with
/// digits alone and fits, and else the number as it is written.
pub open spec fn number_at(s: Seq<char>, pos: int) -> Option<(ValueView, int)> {
    match number_end(s, pos) {
        Some(end) => {
            let negative = char_at(s, pos, '-');
            let digits = s.subrange(
                if negative {
                    pos + 1
                } else {
                    pos
                },
                end,
            );
            if number_is_whole(s, pos) && integer_of(digits, negative).is_some() {
                Some((ValueView::Integer(integer_of(digits, negative).unwrap()), end))
            } else {
                Some((ValueView::Real(s.subrange(pos, end)), end))
            }
        },
        None => None,
    }
}

/// `true` or `false`, where one of them starts at `pos`.
pub open spec fn boolean_at(s: Seq<char>, pos: int) -> Option<(ValueView, int)> {
    if occurs_at(s, pos, seq!['t', 'r', 'u', 'e']) {
        Some((ValueView::Boolean(true), pos + 4))
    } else if occurs_at(s, pos, seq!['f', 'a', 'l', 's', 'e']) {
        Some((ValueView::Boolean(false), pos + 5))
    } else {
        None
    }
}

/// A substitution that starts at `pos`: `${`, or `${?` for one that may
/// find nothing, then a value that names the path, then `}`.
pub open spec fn substitution_at(s: Seq<char>, pos: int) -> Option<(ValueView, bool, int)>
    decreases s.len() - pos, 0int,
{
    if 0 <= pos && occurs_at(s, pos, seq!['$', '{']) {
        let optional = char_at(s, pos + 2, '?');
        let start = if optional {
            pos + 3
        } else {
            pos + 2
        };
        match value_at(s, start) {
            Some((target, end)) => if char_at(s, end, '}') {
                Some((target, optional, end + 1))
            } else {
                None
            },
            None => None,
        }
    } else {
        None
    }
}

/// The token that starts at `pos`: a multi-line string, a quoted string, a
/// number, a boolean, a substitution or an unquoted word, the first of
/// these that is there.
pub open spec fn single_value_at(s: Seq<char>, pos: int) -> Option<(ValueView, int)>
    decreases s.len() - pos, 1int,
{
    if multiline_string_at(s, pos) is Some {
        let t = multiline_string_at(s, pos).unwrap();
        Some((ValueView::String(s.subrange(t.0, t.1)), t.2))
    } else if quoted_string_at(s, pos) is Some {
        let t = quoted_string_at(s, pos).unwrap();
        Some((ValueView::String(decoded(s.subrange(t.0, t.1))), t.2))
    } else if number_at(s, pos) is Some {
        number_at(s, pos)
    } else if boolean_at(s, pos) is Some {
        boolean_at(s, pos)
    } else if substitution_at(s, pos) is Some {
        let t = substitution_at(s, pos).unwrap();
        Some(
            (
                ValueView::PathSubstitution {
                    target: Box::new(t.0),
                    optional: t.1,
                    original: None,
                },
                t.2,
            ),
        )
    } else {
        match unquoted_string_at(s, pos) {
            Some(end) => Some((ValueView::UnquotedString(s.subrange(pos, end)), end)),
            None => None,
        }
    }
}

/// The tokens that stand side by side from `pos` on, and where they end.
pub open spec fn tokens_at(s: Seq<char>, pos: int) -> (Seq<ValueView>, int)
    decreases s.len() - pos, 2int,
{
    match single_value_at(s, pos) {
        Some((v, end)) => if pos < end <= s.len() {
            (seq![v] + tokens_at(s, end).0, tokens_at(s, end).1)
        } else {
            (Seq::empty(), pos)
        },
        None => (Seq::empty(), pos),
    }
}

/// The value that starts at `pos`, after comments: one token, or several
/// folded into one.
pub open spec fn value_at(s: Seq<char>, pos: int) -> Option<(ValueView, int)>
    decreases s.len() - pos, 3int,
{
    let start = after_comments(s, pos);
    if pos <= start <= s.len() {
        match single_value_at(s, start) {
            Some((first, end)) => if start < end <= s.len() {
                let rest = tokens_at(s, end);
                if rest.0.len() == 0 {
                    Some((first, rest.1))
                } else {
                    Some((folded(seq![first] + rest.0), rest.1))
                }
            } else {
                None
            },
            None => None,
        }
    } else {
        None
    }
}

/// The word that asks for another document, with the space behind it.
pub open spec fn inclusion_keyword() -> Seq<char> {
    seq!['i', 'n', 'c', 'l', 'u', 'd', 'e', ' ']
}

/// A quoted string between `open` and a closing parenthesis: its content,
/// decoded, and the position after the parenthesis.
pub open spec fn wrapped_string_at(s: Seq<char>, pos: int, open: Seq<char>) -> Option<
    (Seq<char>, int),
> {
    if occurs_at(s, pos, open) {
        match quoted_string_at(s, pos + open.len()) {
            Some(t) => if char_at(s, t.2, ')') {
                Some((decoded(s.subrange(t.0, t.1)), t.2 + 1))
            } else {
                None
            },
            None => None,
        }
    } else {
        None
    }
}

/// What a document asks to be brought in: `file("...")`, `url("...")`, or
/// a string alone, which names a file. The string alone is a quoted
/// string, or an unquoted one, which is taken without the spaces at its
/// ends; what begins with `file(` or `url(` is no unquoted string.
pub open spec fn inclusion_target_at(s: Seq<char>, pos: int) -> Option<
    (SourceKind, Seq<char>, int),
> {
    if wrapped_string_at(s, pos, seq!['f', 'i', 'l', 'e', '(']) is Some {
        let t = wrapped_string_at(s, pos, seq!['f', 'i', 'l', 'e', '(']).unwrap();
        Some((SourceKind::File, t.0, t.1))
    } else if wrapped_string_at(s, pos, seq!['u', 'r', 'l', '(']) is Some {
        let t = wrapped_string_at(s, pos, seq!['u', 'r', 'l', '(']).unwrap();
        Some((SourceKind::Url, t.0, t.1))
    } else if quoted_string_at(s, pos) is Some {
        let t = quoted_string_at(s, pos).unwrap();
        Some((SourceKind::File, decoded(s.subrange(t.0, t.1)), t.2))
    } else if occurs_at(s, pos, seq!['f', 'i', 'l', 'e', '(']) || occurs_at(
        s,
        pos,
        seq!['u', 'r', 'l', '('],
    ) {
        None
    } else {
        match unquoted_string_at(s, pos) {
            Some(end) => Some((SourceKind::File, trimmed_range(s, pos, end), end)),
            None => None,
        }
    }
}

/// The directive that brings in another document, where one starts at
/// `pos`: the keyword, whitespace, the target, blanks.
#[verifier::opaque]
pub open spec fn inclusion_at(s: Seq<char>, pos: int) -> Option<(SourceKind, Seq<char>, int)> {
    if occurs_at(s, pos, inclusion_keyword()) {
        let target = run_end(s, run_end(s, pos + 8, CharClass::Whitespace), CharClass::Blank);
        match inclusion_target_at(s, target) {
            Some(t) => Some((t.0, t.1, run_end(s, t.2, CharClass::Blank))),
            None => None,
        }
    } else {
        None
    }
}

/// Where what parts two members or two elements ends, if it starts at
/// `pos`: a block of comments, or one or more newlines, or a comma; with
/// the blanks, whitespace and comments around it.
#[verifier::opaque]
pub open spec fn separators_end(s: Seq<char>, pos: int) -> Option<int> {
    let blanks = run_end(s, pos, CharClass::Blank);
    if comment_block_end(s, blanks) is Some {
        let block = run_end(s, comment_block_end(s, blanks).unwrap(), CharClass::Blank);
        Some(run_end(s, after_comments(s, block), CharClass::Whitespace))
    } else if run_end(s, blanks, CharClass::Newline) > blanks {
        let lines = run_end(s, run_end(s, blanks, CharClass::Newline), CharClass::Blank);
        Some(run_end(s, after_comments(s, lines), CharClass::Whitespace))
    } else {
        let comma = run_end(s, pos, CharClass::Whitespace);
        if char_at(s, comma, ',') {
            Some(after_comments(s, run_end(s, comma + 1, CharClass::Whitespace)))
        } else {
            None
        }
    }
}

/// Where the closing bracket `c` ends, which separators and whitespace
/// may precede.
#[verifier::opaque]
pub open spec fn closing_end(s: Seq<char>, pos: int, c: char) -> Option<int> {
    let start = match separators_end(s, pos) {
        Some(end) => end,
        None => pos,
    };
    let bracket = run_end(s, start, CharClass::Whitespace);
    if char_at(s, bracket, c) {
        Some(bracket + 1)
    } else {
        None
    }
}

/// The key that starts at `pos`, after whitespace: its path and the
/// position after the whitespace that follows it.
#[verifier::opaque]
pub open spec fn key_at(s: Seq<char>, pos: int) -> Option<(PathView, int)> {
    let start = run_end(s, pos, CharClass::Whitespace);
    match quoted_string_at(s, start) {
        Some(t) => Some(
            (key_path(decoded(s.subrange(t.0, t.1)), true), run_end(s, t.2, CharClass::Whitespace)),
        ),
        None => match unquoted_string_at(s, start) {
            Some(end) => Some(
                (key_path(s.subrange(start, end), false), run_end(s, end, CharClass::Whitespace)),
            ),
            None => None,
        },
    }
}

/// The entries of a member with the given key, given what its value gives.
pub open spec fn member_of(key: PathView, value: Option<(Seq<EntryView>, int)>) -> Option<
    (Seq<EntryView>, int),
> {
    match value {
        Some((d, end)) => Some((prefixed(key, d), end)),
        None => None,
    }
}

/// The entries of an object position as a value.
pub open spec fn object_value(members: Option<(Seq<EntryView>, int)>) -> Option<
    (Seq<EntryView>, int),
> {
    match members {
        Some((d, end)) => Some((object_entries(d), end)),
        None => None,
    }
}

/// The step that the append operator written at `offset` adds to a path.
pub open spec fn append_step(offset: int) -> PathItemView {
    PathItemView::Append(OperationIdView { tag: Seq::empty(), offset })
}

/// What follows the key of a member, and the entries that the member
/// gives: `+=` and a value, whose entries go under a new element of the
/// array at the key; `:` or `=` and a value; or an object.
pub open spec fn member_tail_at(s: Seq<char>, pos: int, key: PathView) -> Option<
    (Seq<EntryView>, int),
>
    decreases s.len() - pos, 11int,
{
    let sign = run_end(s, pos, CharClass::Whitespace);
    let wide = run_end(s, sign + 2, CharClass::Whitespace);
    let narrow = run_end(s, sign + 1, CharClass::Whitespace);
    if !(0 <= pos <= sign) {
        None
    } else if occurs_at(s, sign, seq!['+', '=']) {
        if sign + 2 <= wide <= s.len() {
            member_of(key.push(append_step(sign)), element_at(s, wide))
        } else {
            None
        }
    } else if char_at(s, sign, ':') || char_at(s, sign, '=') {
        if sign + 1 <= narrow <= s.len() {
            member_of(key, element_at(s, narrow))
        } else {
            None
        }
    } else {
        member_of(key, object_value(objects_at(s, pos)))
    }
}

/// The member that starts at `pos`, after whitespace and comments: a
/// directive that brings in another document, or a key and what follows it.
pub open spec fn member_at(s: Seq<char>, pos: int) -> Option<(Seq<EntryView>, int)>
    decreases s.len() - pos, 5int,
{
    let start = run_end(
        s,
        after_comments(s, run_end(s, pos, CharClass::Whitespace)),
        CharClass::Whitespace,
    );
    if !(0 <= pos <= start) {
        None
    } else if inclusion_at(s, run_end(s, start, CharClass::Blank)) is Some {
        let t = inclusion_at(s, run_end(s, start, CharClass::Blank)).unwrap();
        Some((seq![inclusion_entry(t.0, t.1)], run_end(s, t.2, CharClass::Blank)))
    } else {
        match key_at(s, start) {
            Some((key, end)) => if start < end <= s.len() {
                member_tail_at(s, end, key)
            } else {
                None
            },
            None => None,
        }
    }
}

/// The members that follow the first: each after separators.
pub open spec fn more_members_at(s: Seq<char>, pos: int) -> (Seq<EntryView>, int)
    decreases s.len() - pos, 6int,
{
    match separators_end(s, pos) {
        Some(start) => if 0 <= pos < start <= s.len() {
            match member_at(s, start) {
                Some((d, end)) => if start < end <= s.len() {
                    (d + more_members_at(s, end).0, more_members_at(s, end).1)
                } else {
                    (Seq::empty(), pos)
                },
                None => (Seq::empty(), pos),
            }
        } else {
            (Seq::empty(), pos)
        },
        None => (Seq::empty(), pos),
    }
}

/// The members that stand from `pos` on, parted by separators: their
/// entries in order, and where the last member ends.
pub open spec fn members_at(s: Seq<char>, pos: int) -> (Seq<EntryView>, int)
    decreases s.len() - pos, 7int,
{
    match member_at(s, pos) {
        Some((d, end)) => if 0 <= pos < end <= s.len() {
            (d + more_members_at(s, end).0, more_members_at(s, end).1)
        } else {
            (Seq::empty(), pos)
        },
        None => (Seq::empty(), pos),
    }
}

/// The object that starts at `pos`, after blanks: members between braces.
pub open spec fn object_at(s: Seq<char>, pos: int) -> Option<(Seq<EntryView>, int)>
    decreases s.len() - pos, 8int,
{
    let brace = run_end(s, pos, CharClass::Blank);
    if 0 <= pos <= brace && char_at(s, brace, '{') {
        let members = members_at(s, brace + 1);
        match closing_end(s, members.1, '}') {
            Some(end) => Some((members.0, run_end(s, end, CharClass::Blank))),
            None => None,
        }
    } else {
        None
    }
}

/// The objects that stand side by side from `pos` on.
pub open spec fn more_objects_at(s: Seq<char>, pos: int) -> (Seq<EntryView>, int)
    decreases s.len() - pos, 9int,
{
    match object_at(s, pos) {
        Some((d, end)) => if 0 <= pos < end <= s.len() {
            (d + more_objects_at(s, end).0, more_objects_at(s, end).1)
        } else {
            (Seq::empty(), pos)
        },
        None => (Seq::empty(), pos),
    }
}

/// The entry of a substitution that an object or an array begins with.
pub open spec fn base_entry(base: Option<(ValueView, bool, int)>) -> Seq<EntryView> {
    match base {
        Some(t) => seq![
            root_entry(
                ValueView::PathSubstitution {
                    target: Box::new(t.0),
                    optional: false,
                    original: None,
                },
            ),
        ],
        None => Seq::empty(),
    }
}

/// Where what follows an optional substitution at `pos` starts.
pub open spec fn after_base(base: Option<(ValueView, bool, int)>, pos: int) -> int {
    match base {
        Some(t) => t.2,
        None => pos,
    }
}

/// An object position: an optional substitution, then one or more objects
/// side by side, each laid over what came before it.
pub open spec fn objects_at(s: Seq<char>, pos: int) -> Option<(Seq<EntryView>, int)>
    decreases s.len() - pos, 10int,
{
    let base = substitution_at(s, pos);
    let start = after_base(base, pos);
    if 0 <= pos <= start {
        match object_at(s, start) {
            Some((first, end)) => if start < end <= s.len() {
                Some(
                    (
                        base_entry(base) + first + more_objects_at(s, end).0,
                        more_objects_at(s, end).1,
                    ),
                )
            } else {
                None
            },
            None => None,
        }
    } else {
        None
    }
}

/// The elements that follow the first: each after separators.
pub open spec fn more_elements_at(s: Seq<char>, pos: int) -> (Seq<Seq<EntryView>>, int)
    decreases s.len() - pos, 6int,
{
    match separators_end(s, pos) {
        Some(start) => if 0 <= pos < start <= s.len() {
            match element_at(s, start) {
                Some((d, end)) => if start < end <= s.len() {
                    (seq![d] + more_elements_at(s, end).0, more_elements_at(s, end).1)
                } else {
                    (Seq::empty(), pos)
                },
                None => (Seq::empty(), pos),
            }
        } else {
            (Seq::empty(), pos)
        },
        None => (Seq::empty(), pos),
    }
}

/// The elements that stand from `pos` on, parted by separators.
pub open spec fn elements_at(s: Seq<char>, pos: int) -> (Seq<Seq<EntryView>>, int)
    decreases s.len() - pos, 13int,
{
    match element_at(s, pos) {
        Some((d, end)) => if 0 <= pos < end <= s.len() {
            (seq![d] + more_elements_at(s, end).0, more_elements_at(s, end).1)
        } else {
            (Seq::empty(), pos)
        },
        None => (Seq::empty(), pos),
    }
}

/// The array that starts at `pos`, after blanks: elements between
/// brackets.
pub open spec fn array_at(s: Seq<char>, pos: int) -> Option<(Seq<Seq<EntryView>>, int)>
    decreases s.len() - pos, 8int,
{
    let bracket = run_end(s, pos, CharClass::Blank);
    let start = run_end(s, run_end(s, bracket + 1, CharClass::Blank), CharClass::Whitespace);
    if 0 <= pos <= bracket < start <= s.len() && char_at(s, bracket, '[') {
        let elements = elements_at(s, start);
        match closing_end(s, elements.1, ']') {
            Some(end) => Some((elements.0, end)),
            None => None,
        }
    } else {
        None
    }
}

/// The arrays that stand side by side from `pos` on.
pub open spec fn more_arrays_at(s: Seq<char>, pos: int) -> (Seq<Seq<EntryView>>, int)
    decreases s.len() - pos, 9int,
{
    match array_at(s, pos) {
        Some((items, end)) => if 0 <= pos < end <= s.len() {
            (items + more_arrays_at(s, end).0, more_arrays_at(s, end).1)
        } else {
            (Seq::empty(), pos)
        },
        None => (Seq::empty(), pos),
    }
}

/// The entries of an array position: those of an array literal with the
/// given elements; or, where a substitution stands before the elements,
/// the entry that begins the array with the elements of the substitution's
/// target, and then the entries of the elements.
pub open spec fn array_position_entries(
    base: Option<(ValueView, bool, int)>,
    items: Seq<Seq<EntryView>>,
) -> Seq<EntryView> {
    match base {
        Some(t) => seq![root_entry(ValueView::PathSubstitutionInParent(Box::new(t.0)))]
            + element_entries(items, 0),
        None => array_entries(items),
    }
}

/// An array position: an optional substitution, then one or more arrays
/// side by side, whose elements follow one another. This gives the
/// elements; the substitution is looked at by what asks for the position.
pub open spec fn arrays_at(s: Seq<char>, pos: int) -> Option<(Seq<Seq<EntryView>>, int)>
    decreases s.len() - pos, 10int,
{
    let base = substitution_at(s, pos);
    let start = after_base(base, pos);
    if 0 <= pos <= start {
        match array_at(s, start) {
            Some((first, end)) => if start < end <= s.len() {
                Some((first + more_arrays_at(s, end).0, more_arrays_at(s, end).1))
            } else {
                None
            },
            None => None,
        }
    } else {
        None
    }
}

/// What stands at `pos`, after comments, where a value is asked for: an
/// object position, an array position, a directive that brings in another
/// document, or a plain value; and the entries that it gives.
pub open spec fn element_at(s: Seq<char>, pos: int) -> Option<(Seq<EntryView>, int)>
    decreases s.len() - pos, 12int,
{
    let start = after_comments(s, pos);
    if !(0 <= pos <= start <= s.len()) {
        None
    } else if objects_at(s, start) is Some {
        let t = objects_at(s, start).unwrap();
        Some((object_entries(t.0), t.1))
    } else if arrays_at(s, start) is Some {
        let t = arrays_at(s, start).unwrap();
        Some((array_position_entries(substitution_at(s, start), t.0), t.1))
    } else if inclusion_at(s, start) is Some {
        let t = inclusion_at(s, start).unwrap();
        Some((seq![inclusion_entry(t.0, t.1)], t.2))
    } else {
        match value_at(s, start) {
            Some((v, end)) => Some((seq![root_entry(v)], end)),
            None => None,
        }
    }
}

/// A document whose root is an object without braces: members after
/// blanks, where no brace opens the text.
pub open spec fn root_members_at(s: Seq<char>, pos: int) -> Option<(Seq<EntryView>, int)> {
    let start = run_end(s, pos, CharClass::Blank);
    if char_at(s, start, '{') {
        None
    } else {
        let members = members_at(s, start);
        Some((members.0, run_end(s, members.1, CharClass::Blank)))
    }
}

/// The document that starts at `pos`: after comments, a directive that
/// brings in another document and then the rest of the document; or an
/// array, with blanks behind it; or an object without braces; or an object.
/// Comments may follow.
pub open spec fn root_at(s: Seq<char>, pos: int) -> Option<(Seq<EntryView>, int)>
    decreases s.len() - pos, 14int,
{
    let start = after_comments(s, pos);
    let directive = inclusion_at(s, run_end(s, start, CharClass::Whitespace));
    let rest = if directive is Some {
        run_end(s, directive.unwrap().2, CharClass::Whitespace)
    } else {
        -1
    };
    if !(0 <= pos <= start <= s.len()) {
        None
    } else if directive is Some && start < rest <= s.len() && root_at(s, rest) is Some {
        let t = root_at(s, rest).unwrap();
        Some(
            (
                seq![inclusion_entry(directive.unwrap().0, directive.unwrap().1)] + t.0,
                after_comments(s, t.1),
            ),
        )
    } else if array_at(s, start) is Some {
        let t = array_at(s, start).unwrap();
        Some((array_entries(t.0), after_comments(s, run_end(s, t.1, CharClass::Blank))))
    } else if root_members_at(s, start) is Some {
        let t = root_members_at(s, start).unwrap();
        Some((object_entries(t.0), after_comments(s, t.1)))
    } else {
        match object_at(s, start) {
            Some(t) => Some((object_entries(t.0), after_comments(s, t.1))),
            None => None,
        }
    }
}

/// Whether `c` stands at `pos`.
pub fn has_char(s: &Vec<char>, pos: usize, c: char) -> (r: bool)
    ensures
        r == char_at(s@, pos as int, c),
{
    pos < s.len() && s[pos] == c
}

/// Whether `v` is an unquoted word of spaces alone.
pub fn blank_word(v: &Value) -> (r: bool)
    ensures
        r == is_blank_word(v@),
{
    match v {
        Value::UnquotedString(t) => blank(t),
        _ => false,
    }
}

/// Folds two or more tokens written side by side into one value.
pub fn maybe_concat(tokens: Vec<Value>) -> (r: Value)
    ensures
        r@ == folded(values_view(tokens@)),
{
    let mut tokens = tokens;
    let ghost all = values_view(tokens@);
    let several = tokens.len() > 1;
    if tokens.len() > 0 && blank_word(&tokens[0]) {
        tokens.remove(0);
        assert(values_view(tokens@) =~= all.drop_first());
    }
    let ghost head = values_view(tokens@);
    if several && tokens.len() > 0 && blank_word(&tokens[tokens.len() - 1]) {
        tokens.pop();
        assert(values_view(tokens@) =~= head.drop_last());
    }
    assert(values_view(tokens@) == counted_tokens(all));
    if tokens.len() == 1 {
        let v = tokens.pop().unwrap();
        v
    } else {
        proof {
            lemma_concat_view(tokens);
        }
        Value::Concat(tokens)
    }
}

/// Reads a number.
pub fn number_value(s: &Vec<char>, pos: usize) -> (r: Option<(Value, usize)>)
    requires
        pos <= s.len(),
    ensures
        r.is_some() == number_at(s@, pos as int).is_some(),
        r matches Some(t) ==> number_at(s@, pos as int) == Some((t.0@, t.1 as int)) && pos < t.1
            <= s.len(),
{
    let end = match recognize_number(s, pos) {
        Some(end) => end,
        None => {
            return None;
        },
    };
    let negative = has_char(s, pos, '-');
    let first: usize = if negative {
        pos + 1
    } else {
        pos
    };
    let whole = skip_run(s, first, CharClass::Digit);
    if whole == end {
        proof {
            lemma_run_end(s@, first as int, CharClass::Digit);
        }
        match integer(s, first, end, negative) {
            Some(i) => {
                return Some((Value::Integer(i), end));
            },
            None => {},
        }
    }
    Some((Value::Real(copy_range(s, pos, end)), end))
}

/// Reads `true` or `false`.
pub fn boolean(s: &Vec<char>, pos: usize) -> (r: Option<(Value, usize)>)
    requires
        pos <= s.len(),
    ensures
        r.is_some() == boolean_at(s@, pos as int).is_some(),
        r matches Some(t) ==> boolean_at(s@, pos as int) == Some((t.0@, t.1 as int)) && pos < t.1
            <= s.len(),
{
    if s.len() - pos >= 4 && s[pos] == 't' && s[pos + 1] == 'r' && s[pos + 2] == 'u' && s[pos + 3]
        == 'e' {
        assert(s@.subrange(pos as int, pos + 4) =~= seq!['t', 'r', 'u', 'e']);
        Some((Value::Boolean(true), pos + 4))
    } else if s.len() - pos >= 5 && s[pos] == 'f' && s[pos + 1] == 'a' && s[pos + 2] == 'l'
        && s[pos + 3] == 's' && s[pos + 4] == 'e' {
        assert(s@.subrange(pos as int, pos + 5) =~= seq!['f', 'a', 'l', 's', 'e']);
        assert(!occurs_at(s@, pos as int, seq!['t', 'r', 'u', 'e'])) by {
            if occurs_at(s@, pos as int, seq!['t', 'r', 'u', 'e']) {
                assert(s@.subrange(pos as int, pos + 4)[0] == 't');
            }
        }
        Some((Value::Boolean(false), pos + 5))
    } else {
        proof {
            if occurs_at(s@, pos as int, seq!['t', 'r', 'u', 'e']) {
                let t = s@.subrange(pos as int, pos + 4);
                assert(t[0] == 't' && t[1] == 'r' && t[2] == 'u' && t[3] == 'e');
            }
            if occurs_at(s@, pos as int, seq!['f', 'a', 'l', 's', 'e']) {
                let t = s@.subrange(pos as int, pos + 5);
                assert(t[0] == 'f' && t[1] == 'a' && t[2] == 'l' && t[3] == 's' && t[4] == 'e');
            }
        }
        None
    }
}

/// Reads a substitution: the value that names its path, and whether it
/// may find nothing.
pub fn path_substitution(finder: &PatternFinder, s: &Vec<char>, pos: usize) -> (r: Option<
    (Value, bool, usize),
>)
    requires
        pos <= s.len(),
        finder.patterns() == escape_pattern_list(),
    ensures
        r.is_some() == substitution_at(s@, pos as int).is_some(),
        r matches Some(t) ==> substitution_at(s@, pos as int) == Some((t.0@, t.1, t.2 as int))
            && pos < t.2 <= s.len(),
    decreases s.len() - pos, 0int,
{
    if starts_with_pair(s, pos, '$', '{') {
        let optional = has_char(s, pos + 2, '?');
        let start: usize = if optional {
            pos + 3
        } else {
            pos + 2
        };
        match hocon_value(finder, s, start) {
            Some((target, end)) => {
                if has_char(s, end, '}') {
                    Some((target, optional, end + 1))
                } else {
                    None
                }
            },
            None => None,
        }
    } else {
        None
    }
}

/// Reads one token.
pub fn single_value(finder: &PatternFinder, s: &Vec<char>, pos: usize) -> (r: Option<
    (Value, usize),
>)
    requires
        pos <= s.len(),
        finder.patterns() == escape_pattern_list(),
    ensures
        r.is_some() == single_value_at(s@, pos as int).is_some(),
        r matches Some(t) ==> single_value_at(s@, pos as int) == Some((t.0@, t.1 as int)) && pos
            < t.1 <= s.len(),
    decreases s.len() - pos, 1int,
{
    if let Some(t) = multiline_string(s, pos) {
        return Some((Value::String(copy_range(s, t.0, t.1)), t.2));
    }
    if let Some(t) = quoted_string(s, pos) {
        let content = copy_range(s, t.0, t.1);
        return Some((Value::String(unescape_chars(finder, &content)), t.2));
    }
    if let Some(t) = number_value(s, pos) {
        return Some(t);
    }
    if let Some(t) = boolean(s, pos) {
        return Some(t);
    }
    if let Some(t) = path_substitution(finder, s, pos) {
        return Some(
            (Value::PathSubstitution { target: Box::new(t.0), optional: t.1, original: None }, t.2),
        );
    }
    match unquoted_string(s, pos) {
        Some(end) => Some((Value::UnquotedString(copy_range(s, pos, end)), end)),
        None => None,
    }
}

/// Reads a value: one token or several side by side.
pub fn hocon_value(finder: &PatternFinder, s: &Vec<char>, pos: usize) -> (r: Option<(Value, usize)>)
    requires
        pos <= s.len(),
        finder.patterns() == escape_pattern_list(),
    ensures
        r.is_some() == value_at(s@, pos as int).is_some(),
        r matches Some(t) ==> value_at(s@, pos as int) == Some((t.0@, t.1 as int)) && pos < t.1
            <= s.len(),
    decreases s.len() - pos, 3int,
{
    let start = possible_comment(s, pos);
    let (first, end) = match single_value(finder, s, start) {
        Some(t) => t,
        None => {
            return None;
        },
    };
    let mut tokens: Vec<Value> = Vec::new();
    let ghost first_view = first@;
    tokens.push(first);
    let mut cur: usize = end;
    loop
        invariant_except_break
            start < cur <= s.len(),
            pos <= start,
            finder.patterns() == escape_pattern_list(),
            tokens@.len() >= 1,
            seq![first_view] + tokens_at(s@, end as int).0 == values_view(tokens@) + tokens_at(
                s@,
                cur as int,
            ).0,
            tokens_at(s@, end as int).1 == tokens_at(s@, cur as int).1,
        ensures
            start < cur <= s.len(),
            tokens@.len() >= 1,
            seq![first_view] + tokens_at(s@, end as int).0 == values_view(tokens@),
            tokens_at(s@, end as int).1 == cur,
            (tokens@.len() == 1) == (tokens_at(s@, end as int).0.len() == 0),
        decreases s.len() - cur,
    {
        match single_value(finder, s, cur) {
            Some((v, next)) => {
                let ghost before = values_view(tokens@);
                tokens.push(v);
                assert(values_view(tokens@) =~= before + seq![v@]);
                assert(before + (seq![v@] + tokens_at(s@, next as int).0) =~= (before + seq![v@])
                    + tokens_at(s@, next as int).0);
                cur = next;
            },
            None => {
                assert(tokens_at(s@, cur as int).0 =~= Seq::empty());
                assert(values_view(tokens@) + Seq::<ValueView>::empty() =~= values_view(tokens@));
                assert((seq![first_view] + tokens_at(s@, end as int).0).len() == tokens@.len());
                break ;
            },
        }
    }
    if tokens.len() == 1 {
        let v = tokens.pop().unwrap();
        assert(v@ == first_view) by {
            assert((seq![first_view] + tokens_at(s@, end as int).0)[0] == first_view);
        }
        Some((v, cur))
    } else {
        Some((maybe_concat(tokens), cur))
    }
}

/// Reads a quoted string between a keyword with its opening parenthesis,
/// which the caller has found at `pos` and which is `width` long, and a
/// closing parenthesis.
fn wrapped_string(finder: &PatternFinder, s: &Vec<char>, pos: usize, width: usize) -> (r: Option<
    (Vec<char>, usize),
>)
    requires
        pos + width <= s.len(),
        width > 0,
        finder.patterns() == escape_pattern_list(),
    ensures
        r.is_some() == wrapped_string_at(
            s@,
            pos as int,
            s@.subrange(pos as int, pos + width),
        ).is_some(),
        r matches Some(t) ==> wrapped_string_at(s@, pos as int, s@.subrange(pos as int, pos + width))
            == Some((t.0@, t.1 as int)) && pos < t.1 <= s.len(),
{
    match quoted_string(s, pos + width) {
        Some(t) => {
            if has_char(s, t.2, ')') {
                let content = copy_range(s, t.0, t.1);
                Some((unescape_chars(finder, &content), t.2 + 1))
            } else {
                None
            }
        },
        None => None,
    }
}

/// Reads what a document asks to be brought in.
fn inclusion_target(finder: &PatternFinder, s: &Vec<char>, pos: usize) -> (r: Option<
    (SourceKind, Vec<char>, usize),
>)
    requires
        pos <= s.len(),
        finder.patterns() == escape_pattern_list(),
    ensures
        r.is_some() == inclusion_target_at(s@, pos as int).is_some(),
        r matches Some(t) ==> inclusion_target_at(s@, pos as int) == Some((t.0, t.1@, t.2 as int))
            && pos < t.2 <= s.len(),
{
    let file = s.len() - pos >= 5 && s[pos] == 'f' && s[pos + 1] == 'i' && s[pos + 2] == 'l'
        && s[pos + 3] == 'e' && s[pos + 4] == '(';
    if file {
        assert(s@.subrange(pos as int, pos + 5) =~= seq!['f', 'i', 'l', 'e', '(']);
        if let Some(t) = wrapped_string(finder, s, pos, 5) {
            return Some((SourceKind::File, t.0, t.1));
        }
    } else {
        proof {
            if occurs_at(s@, pos as int, seq!['f', 'i', 'l', 'e', '(']) {
                let t = s@.subrange(pos as int, pos + 5);
                assert(t[0] == 'f' && t[1] == 'i' && t[2] == 'l' && t[3] == 'e' && t[4] == '(');
            }
        }
    }
    let url = s.len() - pos >= 4 && s[pos] == 'u' && s[pos + 1] == 'r' && s[pos + 2] == 'l'
        && s[pos + 3] == '(';
    if url {
        assert(s@.subrange(pos as int, pos + 4) =~= seq!['u', 'r', 'l', '(']);
        if let Some(t) = wrapped_string(finder, s, pos, 4) {
            return Some((SourceKind::Url, t.0, t.1));
        }
    } else {
        proof {
            if occurs_at(s@, pos as int, seq!['u', 'r', 'l', '(']) {
                let t = s@.subrange(pos as int, pos + 4);
                assert(t[0] == 'u' && t[1] == 'r' && t[2] == 'l' && t[3] == '(');
            }
        }
    }
    if let Some(t) = quoted_string(s, pos) {
        let content = copy_range(s, t.0, t.1);
        return Some((SourceKind::File, unescape_chars(finder, &content), t.2));
    }
    if file || url {
        return None;
    }
    match unquoted_string(s, pos) {
        Some(end) => Some((SourceKind::File, trim_range(s, pos, end), end)),
        None => None,
    }
}

/// Reads the directive that brings in another document.
pub fn include_parser(finder: &PatternFinder, s: &Vec<char>, pos: usize) -> (r: Option<
    (SourceKind, Vec<char>, usize),
>)
    requires
        pos <= s.len(),
        finder.patterns() == escape_pattern_list(),
    ensures
        r.is_some() == inclusion_at(s@, pos as int).is_some(),
        r matches Some(t) ==> inclusion_at(s@, pos as int) == Some((t.0, t.1@, t.2 as int)) && pos
            + 8 < t.2 <= s.len(),
{
    reveal(inclusion_at);
    if s.len() - pos >= 8 && s[pos] == 'i' && s[pos + 1] == 'n' && s[pos + 2] == 'c' && s[pos + 3]
        == 'l' && s[pos + 4] == 'u' && s[pos + 5] == 'd' && s[pos + 6] == 'e' && s[pos + 7]
        == ' ' {
        assert(s@.subrange(pos as int, pos + 8) =~= inclusion_keyword());
        let a = skip_run(s, pos + 8, CharClass::Whitespace);
        let b = skip_run(s, a, CharClass::Blank);
        match inclusion_target(finder, s, b) {
            Some(t) => Some((t.0, t.1, skip_run(s, t.2, CharClass::Blank))),
            None => None,
        }
    } else {
        proof {
            if occurs_at(s@, pos as int, inclusion_keyword()) {
                let t = s@.subrange(pos as int, pos + 8);
                assert(t[0] == 'i' && t[1] == 'n' && t[2] == 'c' && t[3] == 'l' && t[4] == 'u'
                    && t[5] == 'd' && t[6] == 'e' && t[7] == ' ');
            }
        }
        None
    }
}

/// Reads what parts two members or two elements.
pub fn separators(s: &Vec<char>, pos: usize) -> (r: Option<usize>)
    requires
        pos <= s.len(),
    ensures
        r.is_some() == separators_end(s@, pos as int).is_some(),
        r matches Some(end) ==> separators_end(s@, pos as int) == Some(end as int) && pos < end
            <= s.len(),
{
    reveal(separators_end);
    let blanks = skip_run(s, pos, CharClass::Blank);
    if let Some(block) = multiline_comment(s, blanks) {
        let a = skip_run(s, block, CharClass::Blank);
        let b = possible_comment(s, a);
        return Some(skip_run(s, b, CharClass::Whitespace));
    }
    let lines = skip_run(s, blanks, CharClass::Newline);
    if lines > blanks {
        let a = skip_run(s, lines, CharClass::Blank);
        let b = possible_comment(s, a);
        return Some(skip_run(s, b, CharClass::Whitespace));
    }
    let comma = skip_run(s, pos, CharClass::Whitespace);
    if has_char(s, comma, ',') {
        let a = skip_run(s, comma + 1, CharClass::Whitespace);
        Some(possible_comment(s, a))
    } else {
        None
    }
}

/// Reads the closing bracket `c`.
pub fn closing(s: &Vec<char>, pos: usize, c: char) -> (r: Option<usize>)
    requires
        pos <= s.len(),
    ensures
        r.is_some() == closing_end(s@, pos as int, c).is_some(),
        r matches Some(end) ==> closing_end(s@, pos as int, c) == Some(end as int) && pos < end
            <= s.len(),
{
    reveal(closing_end);
    let start = match separators(s, pos) {
        Some(end) => end,
        None => pos,
    };
    let bracket = skip_run(s, start, CharClass::Whitespace);
    if has_char(s, bracket, c) {
        Some(bracket + 1)
    } else {
        None
    }
}

/// Reads a key.
pub fn key(finder: &PatternFinder, s: &Vec<char>, pos: usize) -> (r: Option<(Vec<PathItem>, usize)>)
    requires
        pos <= s.len(),
        finder.patterns() == escape_pattern_list(),
    ensures
        r.is_some() == key_at(s@, pos as int).is_some(),
        r matches Some(t) ==> key_at(s@, pos as int) == Some((path_view(t.0@), t.1 as int)) && pos
            < t.1 <= s.len(),
{
    reveal(key_at);
    let start = skip_run(s, pos, CharClass::Whitespace);
    if let Some(t) = quoted_string(s, start) {
        let content = copy_range(s, t.0, t.1);
        let name = unescape_chars(finder, &content);
        return Some((split_key(&name, true), skip_run(s, t.2, CharClass::Whitespace)));
    }
    match unquoted_string(s, start) {
        Some(end) => {
            let name = copy_range(s, start, end);
            Some((split_key(&name, false), skip_run(s, end, CharClass::Whitespace)))
        },
        None => None,
    }
}

/// Reads what follows the key of a member.
#[verifier::rlimit(20)]
pub fn member_tail(finder: &PatternFinder, s: &Vec<char>, pos: usize, key: Vec<PathItem>) -> (r:
    Option<(Document, usize)>)
    requires
        pos <= s.len(),
        finder.patterns() == escape_pattern_list(),
    ensures
        r.is_some() == member_tail_at(s@, pos as int, path_view(key@)).is_some(),
        r matches Some(t) ==> member_tail_at(s@, pos as int, path_view(key@)) == Some(
            (t.0@, t.1 as int),
        ) && pos < t.1 <= s.len(),
    decreases s.len() - pos, 11int,
{
    let sign = skip_run(s, pos, CharClass::Whitespace);
    if starts_with_pair(s, sign, '+', '=') {
        let start = skip_run(s, sign + 2, CharClass::Whitespace);
        match wrapper(finder, s, start) {
            Some((d, end)) => Some(
                (d.tag_append(key, OperationId { tag: Vec::new(), offset: sign }), end),
            ),
            None => None,
        }
    } else if has_char(s, sign, ':') || has_char(s, sign, '=') {
        let start = skip_run(s, sign + 1, CharClass::Whitespace);
        match wrapper(finder, s, start) {
            Some((d, end)) => Some((d.add_to_path(&key), end)),
            None => None,
        }
    } else {
        match hashes(finder, s, pos) {
            Some((d, end)) => Some((Document::from_object(d).add_to_path(&key), end)),
            None => None,
        }
    }
}

/// Reads a member of an object.
pub fn key_value(finder: &PatternFinder, s: &Vec<char>, pos: usize) -> (r: Option<(Document, usize)>)
    requires
        pos <= s.len(),
        finder.patterns() == escape_pattern_list(),
    ensures
        r.is_some() == member_at(s@, pos as int).is_some(),
        r matches Some(t) ==> member_at(s@, pos as int) == Some((t.0@, t.1 as int)) && pos < t.1
            <= s.len(),
    decreases s.len() - pos, 5int,
{
    let a = skip_run(s, pos, CharClass::Whitespace);
    let b = possible_comment(s, a);
    let start = skip_run(s, b, CharClass::Whitespace);
    let directive = skip_run(s, start, CharClass::Blank);
    if let Some(t) = include_parser(finder, s, directive) {
        return Some((Document::from_include(t.0, t.1), skip_run(s, t.2, CharClass::Blank)));
    }
    match key(finder, s, start) {
        Some((path, end)) => member_tail(finder, s, end, path),
        None => None,
    }
}

/// Reads the members of an object, parted by separators.
pub fn separated_hashlist(finder: &PatternFinder, s: &Vec<char>, pos: usize) -> (r: (
    Document,
    usize,
))
    requires
        pos <= s.len(),
        finder.patterns() == escape_pattern_list(),
    ensures
        members_at(s@, pos as int) == (r.0@, r.1 as int),
        pos <= r.1 <= s.len(),
    decreases s.len() - pos, 7int,
{
    let (first, end) = match key_value(finder, s, pos) {
        Some(t) => t,
        None => {
            return (Document::empty(), pos);
        },
    };
    let mut doc = first;
    let mut cur: usize = end;
    loop
        invariant_except_break
            pos < cur <= s.len(),
            finder.patterns() == escape_pattern_list(),
            members_at(s@, pos as int).0 == doc@ + more_members_at(s@, cur as int).0,
            members_at(s@, pos as int).1 == more_members_at(s@, cur as int).1,
        ensures
            pos < cur <= s.len(),
            members_at(s@, pos as int) == (doc@, cur as int),
        decreases s.len() - cur,
    {
        let start = match separators(s, cur) {
            Some(p) => p,
            None => {
                assert(doc@ + Seq::<EntryView>::empty() =~= doc@);
                break ;
            },
        };
        match key_value(finder, s, start) {
            Some((d, next)) => {
                assert(doc@ + (d@ + more_members_at(s@, next as int).0) =~= (doc@ + d@)
                    + more_members_at(s@, next as int).0);
                doc = doc.add(d);
                cur = next;
            },
            None => {
                assert(doc@ + Seq::<EntryView>::empty() =~= doc@);
                break ;
            },
        }
    }
    (doc, cur)
}

/// Reads an object.
pub fn hash(finder: &PatternFinder, s: &Vec<char>, pos: usize) -> (r: Option<(Document, usize)>)
    requires
        pos <= s.len(),
        finder.patterns() == escape_pattern_list(),
    ensures
        r.is_some() == object_at(s@, pos as int).is_some(),
        r matches Some(t) ==> object_at(s@, pos as int) == Some((t.0@, t.1 as int)) && pos < t.1
            <= s.len(),
    decreases s.len() - pos, 8int,
{
    let brace = skip_run(s, pos, CharClass::Blank);
    if !has_char(s, brace, '{') {
        return None;
    }
    let (members, end) = separated_hashlist(finder, s, brace + 1);
    match closing(s, end, '}') {
        Some(after) => Some((members, skip_run(s, after, CharClass::Blank))),
        None => None,
    }
}

/// Reads an object position.
pub fn hashes(finder: &PatternFinder, s: &Vec<char>, pos: usize) -> (r: Option<(Document, usize)>)
    requires
        pos <= s.len(),
        finder.patterns() == escape_pattern_list(),
    ensures
        r.is_some() == objects_at(s@, pos as int).is_some(),
        r matches Some(t) ==> objects_at(s@, pos as int) == Some((t.0@, t.1 as int)) && pos < t.1
            <= s.len(),
    decreases s.len() - pos, 10int,
{
    let base = path_substitution(finder, s, pos);
    let ghost base_view = substitution_at(s@, pos as int);
    let (mut doc, start) = match base {
        Some(t) => (
            Document::from_value(
                Value::PathSubstitution { target: Box::new(t.0), optional: false, original: None },
            ),
            t.2,
        ),
        None => (Document::empty(), pos),
    };
    assert(doc@ == base_entry(base_view));
    let (first, end) = match hash(finder, s, start) {
        Some(t) => t,
        None => {
            return None;
        },
    };
    doc = doc.add(first);
    let ghost head = doc@;
    let mut cur: usize = end;
    loop
        invariant_except_break
            pos < cur <= s.len(),
            finder.patterns() == escape_pattern_list(),
            head + more_objects_at(s@, end as int).0 == doc@ + more_objects_at(s@, cur as int).0,
            more_objects_at(s@, end as int).1 == more_objects_at(s@, cur as int).1,
        ensures
            pos < cur <= s.len(),
            head + more_objects_at(s@, end as int).0 == doc@,
            more_objects_at(s@, end as int).1 == cur,
        decreases s.len() - cur,
    {
        match hash(finder, s, cur) {
            Some((d, next)) => {
                assert(doc@ + (d@ + more_objects_at(s@, next as int).0) =~= (doc@ + d@)
                    + more_objects_at(s@, next as int).0);
                doc = doc.add(d);
                cur = next;
            },
            None => {
                assert(doc@ + Seq::<EntryView>::empty() =~= doc@);
                break ;
            },
        }
    }
    Some((doc, cur))
}

/// Reads the elements of an array, parted by separators.
pub fn separated_elements(finder: &PatternFinder, s: &Vec<char>, pos: usize) -> (r: (
    Vec<Document>,
    usize,
))
    requires
        pos <= s.len(),
        finder.patterns() == escape_pattern_list(),
    ensures
        elements_at(s@, pos as int) == (documents_view(r.0@), r.1 as int),
        pos <= r.1 <= s.len(),
    decreases s.len() - pos, 13int,
{
    let mut items: Vec<Document> = Vec::new();
    let (first, end) = match wrapper(finder, s, pos) {
        Some(t) => t,
        None => {
            assert(documents_view(items@) =~= Seq::empty());
            return (items, pos);
        },
    };
    let ghost first_view = first@;
    items.push(first);
    assert(documents_view(items@) =~= seq![first_view]);
    let mut cur: usize = end;
    loop
        invariant_except_break
            pos < cur <= s.len(),
            finder.patterns() == escape_pattern_list(),
            elements_at(s@, pos as int).0 == documents_view(items@) + more_elements_at(
                s@,
                cur as int,
            ).0,
            elements_at(s@, pos as int).1 == more_elements_at(s@, cur as int).1,
        ensures
            pos < cur <= s.len(),
            elements_at(s@, pos as int) == (documents_view(items@), cur as int),
        decreases s.len() - cur,
    {
        let ghost before = documents_view(items@);
        let start = match separators(s, cur) {
            Some(p) => p,
            None => {
                assert(before + Seq::<Seq<EntryView>>::empty() =~= before);
                break ;
            },
        };
        match wrapper(finder, s, start) {
            Some((d, next)) => {
                assert(before + (seq![d@] + more_elements_at(s@, next as int).0) =~= (before
                    + seq![d@]) + more_elements_at(s@, next as int).0);
                items.push(d);
                assert(documents_view(items@) =~= before + seq![d@]);
                cur = next;
            },
            None => {
                assert(before + Seq::<Seq<EntryView>>::empty() =~= before);
                break ;
            },
        }
    }
    (items, cur)
}

/// Reads an array.
pub fn array(finder: &PatternFinder, s: &Vec<char>, pos: usize) -> (r: Option<(Vec<Document>, usize)>)
    requires
        pos <= s.len(),
        finder.patterns() == escape_pattern_list(),
    ensures
        r.is_some() == array_at(s@, pos as int).is_some(),
        r matches Some(t) ==> array_at(s@, pos as int) == Some((documents_view(t.0@), t.1 as int))
            && pos < t.1 <= s.len(),
    decreases s.len() - pos, 8int,
{
    let bracket = skip_run(s, pos, CharClass::Blank);
    if !has_char(s, bracket, '[') {
        return None;
    }
    let a = skip_run(s, bracket + 1, CharClass::Blank);
    let start = skip_run(s, a, CharClass::Whitespace);
    let (items, end) = separated_elements(finder, s, start);
    match closing(s, end, ']') {
        Some(after) => Some((items, after)),
        None => None,
    }
}

/// The target of an optional substitution.
pub open spec fn base_target(base: Option<(ValueView, bool, int)>) -> Option<ValueView> {
    match base {
        Some(t) => Some(t.0),
        None => None,
    }
}

/// An optional value as a mathematical value.
pub open spec fn optional_value(v: Option<Value>) -> Option<ValueView> {
    match v {
        Some(v) => Some(v@),
        None => None,
    }
}

/// Reads an array position: the target of the substitution that stands
/// before the arrays, if one does, and the elements.
pub fn arrays(finder: &PatternFinder, s: &Vec<char>, pos: usize) -> (r: Option<
    (Option<Value>, Vec<Document>, usize),
>)
    requires
        pos <= s.len(),
        finder.patterns() == escape_pattern_list(),
    ensures
        r.is_some() == arrays_at(s@, pos as int).is_some(),
        r matches Some(t) ==> arrays_at(s@, pos as int) == Some((documents_view(t.1@), t.2 as int))
            && optional_value(t.0) == base_target(substitution_at(s@, pos as int)) && pos < t.2
            <= s.len(),
    decreases s.len() - pos, 10int,
{
    let base = path_substitution(finder, s, pos);
    let (target, start) = match base {
        Some(t) => (Some(t.0), t.2),
        None => (None, pos),
    };
    let (first, end) = match array(finder, s, start) {
        Some(t) => t,
        None => {
            return None;
        },
    };
    let mut items = first;
    let ghost head = documents_view(items@);
    let mut cur: usize = end;
    loop
        invariant_except_break
            pos < cur <= s.len(),
            finder.patterns() == escape_pattern_list(),
            head + more_arrays_at(s@, end as int).0 == documents_view(items@) + more_arrays_at(
                s@,
                cur as int,
            ).0,
            more_arrays_at(s@, end as int).1 == more_arrays_at(s@, cur as int).1,
        ensures
            pos < cur <= s.len(),
            head + more_arrays_at(s@, end as int).0 == documents_view(items@),
            more_arrays_at(s@, end as int).1 == cur,
        decreases s.len() - cur,
    {
        let ghost before = documents_view(items@);
        match array(finder, s, cur) {
            Some((more, next)) => {
                let mut more = more;
                let ghost more_view = documents_view(more@);
                assert(before + (more_view + more_arrays_at(s@, next as int).0) =~= (before
                    + more_view) + more_arrays_at(s@, next as int).0);
                items.append(&mut more);
                assert(documents_view(items@) =~= before + more_view);
                cur = next;
            },
            None => {
                assert(before + Seq::<Seq<EntryView>>::empty() =~= before);
                break ;
            },
        }
    }
    Some((target, items, cur))
}

/// Reads what stands where a value is asked for.
pub fn wrapper(finder: &PatternFinder, s: &Vec<char>, pos: usize) -> (r: Option<(Document, usize)>)
    requires
        pos <= s.len(),
        finder.patterns() == escape_pattern_list(),
    ensures
        r.is_some() == element_at(s@, pos as int).is_some(),
        r matches Some(t) ==> element_at(s@, pos as int) == Some((t.0@, t.1 as int)) && pos < t.1
            <= s.len(),
    decreases s.len() - pos, 12int,
{
    let start = possible_comment(s, pos);
    if let Some((d, end)) = hashes(finder, s, start) {
        return Some((Document::from_object(d), end));
    }
    if let Some((target, items, end)) = arrays(finder, s, start) {
        let entries = match target {
            Some(t) => Document::from_value(Value::PathSubstitutionInParent(Box::new(t))).add(
                Document::elements(items),
            ),
            None => Document::from_array(items),
        };
        return Some((entries, end));
    }
    if let Some(t) = include_parser(finder, s, start) {
        return Some((Document::from_include(t.0, t.1), t.2));
    }
    match hocon_value(finder, s, start) {
        Some((v, end)) => Some((Document::from_value(v), end)),
        None => None,
    }
}

/// Reads a document whose root is an object without braces.
pub fn root_hash(finder: &PatternFinder, s: &Vec<char>, pos: usize) -> (r: Option<(Document, usize)>)
    requires
        pos <= s.len(),
        finder.patterns() == escape_pattern_list(),
    ensures
        r.is_some() == root_members_at(s@, pos as int).is_some(),
        r matches Some(t) ==> root_members_at(s@, pos as int) == Some((t.0@, t.1 as int)) && pos
            <= t.1 <= s.len(),
{
    let start = skip_run(s, pos, CharClass::Blank);
    if has_char(s, start, '{') {
        return None;
    }
    let (members, end) = separated_hashlist(finder, s, start);
    Some((members, skip_run(s, end, CharClass::Blank)))
}

/// Reads a document.
pub fn root(finder: &PatternFinder, s: &Vec<char>, pos: usize) -> (r: Option<(Document, usize)>)
    requires
        pos <= s.len(),
        finder.patterns() == escape_pattern_list(),
    ensures
        r.is_some() == root_at(s@, pos as int).is_some(),
        r matches Some(t) ==> root_at(s@, pos as int) == Some((t.0@, t.1 as int)) && pos <= t.1
            <= s.len(),
    decreases s.len() - pos, 14int,
{
    let start = possible_comment(s, pos);
    let a = skip_run(s, start, CharClass::Whitespace);
    if let Some(t) = include_parser(finder, s, a) {
        let rest = skip_run(s, t.2, CharClass::Whitespace);
        if let Some((d, end)) = root(finder, s, rest) {
            return Some((Document::from_include(t.0, t.1).add(d), possible_comment(s, end)));
        }
    }
    if let Some((items, end)) = array(finder, s, start) {
        let behind = skip_run(s, end, CharClass::Blank);
        return Some((Document::from_array(items), possible_comment(s, behind)));
    }
    if let Some((d, end)) = root_hash(finder, s, start) {
        return Some((Document::from_object(d), possible_comment(s, end)));
    }
    match hash(finder, s, start) {
        Some((d, end)) => Some((Document::from_object(d), possible_comment(s, end))),
        None => None,
    }
}

} // verus!
