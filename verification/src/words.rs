//! Words and keys: cutting blanks off the ends of a word, and splitting a
//! dotted key into the steps of a path.

use crate::scan::{run_end, skip_run, CharClass};
use crate::text::copy_range;
use crate::value::{path_view, PathItem, PathItemView, PathView};
use vstd::prelude::*;

verus! {

/// The first position in `s[from..to]` that holds no space; `to` if all do.
pub open spec fn trim_start(s: Seq<char>, from: int, to: int) -> int
    decreases to - from,
{
    if 0 <= from < to <= s.len() && CharClass::Space.holds(s[from]) {
        trim_start(s, from + 1, to)
    } else {
        from
    }
}

/// The position after the last character in `s[from..to]` that is no space;
/// `from` if all are.
pub open spec fn trim_end(s: Seq<char>, from: int, to: int) -> int
    decreases to - from,
{
    if 0 <= from < to <= s.len() && CharClass::Space.holds(s[to - 1]) {
        trim_end(s, from, to - 1)
    } else {
        to
    }
}

/// `s[from..to]` without the spaces at its ends.
pub open spec fn trimmed_range(s: Seq<char>, from: int, to: int) -> Seq<char> {
    s.subrange(trim_start(s, from, to), trim_end(s, trim_start(s, from, to), to))
}

/// `s` without the spaces at its ends.
pub open spec fn trimmed(s: Seq<char>) -> Seq<char> {
    trimmed_range(s, 0, s.len() as int)
}

/// Whether `s` holds nothing but spaces.
pub open spec fn is_blank(s: Seq<char>) -> bool {
    trim_start(s, 0, s.len() as int) == s.len()
}

/// Where the text starts once leading spaces are cut off `s[from..to]`.
pub fn skip_leading(s: &Vec<char>, from: usize, to: usize) -> (r: usize)
    requires
        from <= to <= s.len(),
    ensures
        r == trim_start(s@, from as int, to as int),
        from <= r <= to,
{
    let mut i: usize = from;
    while i < to && CharClass::Space.test(s[i])
        invariant
            from <= i <= to <= s.len(),
            trim_start(s@, from as int, to as int) == trim_start(s@, i as int, to as int),
        decreases to - i,
    {
        i += 1;
    }
    i
}

/// Where the text ends once trailing spaces are cut off `s[from..to]`.
pub fn skip_trailing(s: &Vec<char>, from: usize, to: usize) -> (r: usize)
    requires
        from <= to <= s.len(),
    ensures
        r == trim_end(s@, from as int, to as int),
        from <= r <= to,
{
    let mut i: usize = to;
    while from < i && CharClass::Space.test(s[i - 1])
        invariant
            from <= i <= to <= s.len(),
            trim_end(s@, from as int, to as int) == trim_end(s@, from as int, i as int),
        decreases i - from,
    {
        i -= 1;
    }
    i
}

/// A copy of `s[from..to]` without the spaces at its ends.
pub fn trim_range(s: &Vec<char>, from: usize, to: usize) -> (r: Vec<char>)
    requires
        from <= to <= s.len(),
    ensures
        r@ == trimmed_range(s@, from as int, to as int),
{
    let a = skip_leading(s, from, to);
    let b = skip_trailing(s, a, to);
    copy_range(s, a, b)
}

/// A copy of `s` without the spaces at its ends.
pub fn trim(s: &Vec<char>) -> (r: Vec<char>)
    ensures
        r@ == trimmed(s@),
{
    trim_range(s, 0, s.len())
}

/// Whether `s` holds nothing but spaces.
pub fn blank(s: &Vec<char>) -> (r: bool)
    ensures
        r == is_blank(s@),
{
    skip_leading(s, 0, s.len()) == s.len()
}

/// The steps that the dotted key `s[from..]` names: the pieces between its
/// dots, each without the spaces at its ends.
pub open spec fn key_steps(s: Seq<char>, from: int) -> PathView
    decreases s.len() - from,
{
    let dot = run_end(s, from, CharClass::NotDot);
    if 0 <= from <= dot < s.len() {
        seq![PathItemView::Key(trimmed_range(s, from, dot))] + key_steps(s, dot + 1)
    } else {
        seq![PathItemView::Key(trimmed_range(s, from, s.len() as int))]
    }
}

/// The path that a key names. A quoted key is one step, whatever it holds;
/// an unquoted key is split at its dots.
pub open spec fn key_path(key: Seq<char>, quoted: bool) -> PathView {
    if quoted {
        seq![PathItemView::Key(key)]
    } else {
        key_steps(key, 0)
    }
}

/// Splits a key into the steps of its path.
pub fn split_key(key: &Vec<char>, quoted: bool) -> (r: Vec<PathItem>)
    ensures
        path_view(r@) == key_path(key@, quoted),
        r@.len() > 0,
{
    let mut out: Vec<PathItem> = Vec::new();
    if quoted {
        out.push(PathItem::Key(copy_range(key, 0, key.len())));
        assert(key@.subrange(0, key@.len() as int) =~= key@);
        assert(path_view(out@) =~= key_path(key@, quoted));
        return out;
    }
    let mut from: usize = 0;
    loop
        invariant_except_break
            from <= key.len(),
            key_steps(key@, 0) == path_view(out@) + key_steps(key@, from as int),
        ensures
            path_view(out@) == key_steps(key@, 0),
            out@.len() > 0,
        decreases key.len() - from,
    {
        let dot = skip_run(key, from, CharClass::NotDot);
        let ghost before = out@;
        if dot < key.len() {
            out.push(PathItem::Key(trim_range(key, from, dot)));
            assert(path_view(out@) =~= path_view(before) + seq![
                PathItemView::Key(trimmed_range(key@, from as int, dot as int)),
            ]);
            from = dot + 1;
        } else {
            out.push(PathItem::Key(trim_range(key, from, key.len())));
            assert(path_view(out@) =~= path_view(before) + seq![
                PathItemView::Key(trimmed_range(key@, from as int, key@.len() as int)),
            ]);
            break ;
        }
    }
    out
}

} // verus!
